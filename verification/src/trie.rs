//! A persistent byte-keyed trie over fixed-length keys.
//!
//! Every key stored in a trie has the same length, fixed when the trie is
//! created.  A trie value is immutable: `insert`, `remove` and `union` build
//! and return a new trie and leave their arguments untouched, so readers
//! holding an older version are never invalidated.
//!
//! The structure is canonical: two well-formed tries over the same key
//! length hold the same key set if and only if they compare equal under
//! `same_content`, which is what makes structural comparison usable as
//! content equality.

use vstd::prelude::*;
use vstd::relations::injective_on;
use crate::bitset::ByteBitset;
use crate::query::ByteCursor;
use vstd::set_lib::lemma_map_size;
use vstd::set_lib::lemma_set_disjoint_lens;

verus! {

/// One node of a trie.  A `Leaf` marks the end of a key; a `Branch` maps
/// each present next byte to the subtrie of key suffixes under it, in
/// strictly ascending byte order, and caches the number of keys below it.
#[verifier::ext_equal]
pub(crate) enum Node {
    Leaf,
    Branch { count: usize, children: Vec<(u8, Box<Node>)> },
}

/// Does node `n`, holding suffixes of length `len`, contain the suffix `k`?
/// (The length of `k` is constrained by the caller; a `Leaf` holds exactly
/// the empty suffix.)
pub(crate) open spec fn node_has(n: Node, len: nat, k: Seq<u8>) -> bool
    decreases len, 0nat,
{
    match n {
        Node::Leaf => len == 0 && k.len() == 0,
        Node::Branch { count, children } => len > 0 && children_has(
            children@,
            (len - 1) as nat,
            k,
        ),
    }
}

/// Does any entry of the child list `cs` (whose subtries hold suffixes of
/// length `clen`) contain `k`, i.e. does some entry's byte start `k` and its
/// subtrie hold the rest of `k`?
pub(crate) open spec fn children_has(cs: Seq<(u8, Box<Node>)>, clen: nat, k: Seq<u8>) -> bool
    decreases clen, cs.len(),
{
    if cs.len() == 0 {
        false
    } else {
        (k.len() == clen + 1 && k.first() == cs.last().0 && node_has(
            *cs.last().1,
            clen,
            k.drop_first(),
        )) || children_has(cs.drop_last(), clen, k)
    }
}

/// The set of suffixes stored below node `n`.
pub(crate) open spec fn node_keys(n: Node, len: nat) -> Set<Seq<u8>> {
    Set::new(|k: Seq<u8>| node_has(n, len, k))
}

/// The set of suffixes stored below the child list `cs`.
pub(crate) open spec fn children_keys(cs: Seq<(u8, Box<Node>)>, clen: nat) -> Set<Seq<u8>> {
    Set::new(|k: Seq<u8>| children_has(cs, clen, k))
}

/// The number of keys below node `n`, computed structurally.
pub(crate) open spec fn node_size(n: Node, len: nat) -> nat
    decreases len, 0nat,
{
    match n {
        Node::Leaf => 1,
        Node::Branch { count, children } => if len == 0 {
            0
        } else {
            children_size(children@, (len - 1) as nat)
        },
    }
}

/// The number of keys below the child list `cs`.
pub(crate) open spec fn children_size(cs: Seq<(u8, Box<Node>)>, clen: nat) -> nat
    decreases clen, cs.len(),
{
    if cs.len() == 0 {
        0
    } else {
        children_size(cs.drop_last(), clen) + node_size(*cs.last().1, clen)
    }
}

/// Are the child bytes of `cs` strictly ascending?
pub(crate) open spec fn children_sorted(cs: Seq<(u8, Box<Node>)>) -> bool {
    forall|i: int, j: int| 0 <= i < j < cs.len() ==> (cs[i].0 < cs[j].0)
}

/// Well-formedness of a node holding suffixes of length `len`: leaves sit
/// exactly at depth `len`, child bytes are strictly ascending, every child
/// is well-formed and non-empty, and the cached count is the structural one.
pub(crate) open spec fn node_wf(n: Node, len: nat) -> bool
    decreases len, 0nat,
{
    match n {
        Node::Leaf => len == 0,
        Node::Branch { count, children } => {
            &&& len > 0
            &&& children@.len() > 0
            &&& children_sorted(children@)
            &&& children_wf(children@, (len - 1) as nat)
            &&& count == children_size(children@, (len - 1) as nat)
        },
    }
}

pub(crate) open spec fn children_wf(cs: Seq<(u8, Box<Node>)>, clen: nat) -> bool
    decreases clen, cs.len(),
{
    if cs.len() == 0 {
        true
    } else {
        children_wf(cs.drop_last(), clen) && node_wf(*cs.last().1, clen)
    }
}

/// Membership below a child list, characterized by index: `k` is present
/// iff some entry carries `k`'s first byte and holds the rest of `k`.
pub(crate) proof fn lemma_children_has_char(cs: Seq<(u8, Box<Node>)>, clen: nat, k: Seq<u8>)
    ensures
        children_has(cs, clen, k) <==> (k.len() == clen + 1 && exists|i: int|
            0 <= i < cs.len() && cs[i].0 == k.first() && node_has(*cs[i].1, clen, k.drop_first())),
    decreases cs.len(),
{
    if cs.len() > 0 {
        lemma_children_has_char(cs.drop_last(), clen, k);
        if children_has(cs, clen, k) {
            if k.len() == clen + 1 && k.first() == cs.last().0 && node_has(
                *cs.last().1,
                clen,
                k.drop_first(),
            ) {
                assert(cs[cs.len() - 1].0 == k.first() && node_has(
                    *cs[cs.len() - 1].1,
                    clen,
                    k.drop_first(),
                ));
            } else {
                let i = choose|i: int|
                    0 <= i < cs.drop_last().len() && cs.drop_last()[i].0 == k.first() && node_has(
                        *cs.drop_last()[i].1,
                        clen,
                        k.drop_first(),
                    );
                assert(cs[i].0 == k.first() && node_has(*cs[i].1, clen, k.drop_first()));
            }
        }
        if k.len() == clen + 1 && exists|i: int|
            0 <= i < cs.len() && cs[i].0 == k.first() && node_has(*cs[i].1, clen, k.drop_first()) {
            let i = choose|i: int|
                0 <= i < cs.len() && cs[i].0 == k.first() && node_has(*cs[i].1, clen, k.drop_first());
            if i == cs.len() - 1 {
                assert(children_has(cs, clen, k));
            } else {
                assert(cs.drop_last()[i].0 == k.first() && node_has(
                    *cs.drop_last()[i].1,
                    clen,
                    k.drop_first(),
                ));
            }
        }
    }
}

/// Well-formedness of a prefix of a child list, and of each entry.
pub(crate) proof fn lemma_children_wf_each(cs: Seq<(u8, Box<Node>)>, clen: nat)
    requires
        children_wf(cs, clen),
    ensures
        forall|i: int| 0 <= i < cs.len() ==> node_wf(#[trigger] (*cs[i].1), clen),
        forall|j: int| 0 <= j <= cs.len() ==> children_wf(#[trigger] cs.take(j), clen),
    decreases cs.len(),
{
    if cs.len() > 0 {
        lemma_children_wf_each(cs.drop_last(), clen);
        assert(forall|i: int| 0 <= i < cs.len() - 1 ==> cs.drop_last()[i] == cs[i]);
        assert(cs.take(cs.len() as int) == cs);
        assert(forall|j: int| 0 <= j <= cs.len() - 1 ==> cs.drop_last().take(j) == cs.take(j));
    } else {
        assert(cs.take(0) == cs);
    }
}

/// Every key below a well-formed node has length `len`, and a well-formed
/// node holds at least one key.
pub(crate) proof fn lemma_node_some_key(n: Node, len: nat)
    requires
        node_wf(n, len),
    ensures
        exists|k: Seq<u8>| #[trigger] node_keys(n, len).contains(k),
    decreases len, 0nat,
{
    match n {
        Node::Leaf => {
            assert(node_has(n, len, Seq::<u8>::empty()));
            assert(node_keys(n, len).contains(Seq::<u8>::empty()));
        },
        Node::Branch { count, children } => {
            let cs = children@;
            lemma_children_wf_each(cs, (len - 1) as nat);
            lemma_node_some_key(*cs.last().1, (len - 1) as nat);
            let k = choose|k: Seq<u8>| #[trigger] node_keys(*cs.last().1, (len - 1) as nat).contains(k);
            let full = seq![cs.last().0] + k;
            assert(full.first() == cs.last().0);
            assert(full.drop_first() =~= k);
            lemma_node_key_len(*cs.last().1, (len - 1) as nat, k);
            assert(children_has(cs, (len - 1) as nat, full));
            assert(node_keys(n, len).contains(full));
        },
    }
}

/// Any key a node holds has exactly the node's suffix length.
pub(crate) proof fn lemma_node_key_len(n: Node, len: nat, k: Seq<u8>)
    requires
        node_has(n, len, k),
    ensures
        k.len() == len,
    decreases len, 0nat,
{
    match n {
        Node::Leaf => {},
        Node::Branch { count, children } => {
            lemma_children_has_char(children@, (len - 1) as nat, k);
        },
    }
}

/// The cached size of a well-formed node equals the cardinality of its key
/// set, which is finite.
pub(crate) proof fn lemma_node_size_is_len(n: Node, len: nat)
    requires
        node_wf(n, len),
    ensures
        node_keys(n, len).finite(),
        node_keys(n, len).len() == node_size(n, len),
    decreases len, 0nat,
{
    match n {
        Node::Leaf => {
            assert forall|k: Seq<u8>| node_has(n, len, k) implies k == Seq::<u8>::empty() by {
                assert(k =~= Seq::<u8>::empty());
            }
            assert(node_keys(n, len) =~= set![Seq::<u8>::empty()]);
        },
        Node::Branch { count, children } => {
            lemma_children_size_is_len(children@, (len - 1) as nat);
            assert(node_keys(n, len) =~= children_keys(children@, (len - 1) as nat));
        },
    }
}

pub(crate) proof fn lemma_children_size_is_len(cs: Seq<(u8, Box<Node>)>, clen: nat)
    requires
        children_wf(cs, clen),
        children_sorted(cs),
    ensures
        children_keys(cs, clen).finite(),
        children_keys(cs, clen).len() == children_size(cs, clen),
    decreases clen, cs.len(),
{
    if cs.len() == 0 {
        assert(children_keys(cs, clen) =~= Set::<Seq<u8>>::empty());
    } else {
        let rest = cs.drop_last();
        let b = cs.last().0;
        let child = *cs.last().1;
        lemma_children_size_is_len(rest, clen);
        lemma_node_size_is_len(child, clen);
        let f = |s: Seq<u8>| seq![b] + s;
        let image = node_keys(child, clen).map(f);
        assert(injective_on(f, node_keys(child, clen))) by {
            assert forall|x: Seq<u8>, y: Seq<u8>|
                node_keys(child, clen).contains(x) && node_keys(child, clen).contains(y) && f(x)
                    == f(y) implies x == y by {
                assert((seq![b] + x).drop_first() =~= x);
                assert((seq![b] + y).drop_first() =~= y);
            }
        }
        lemma_map_size(node_keys(child, clen), image, f);
        // The image holds exactly the keys contributed by the last entry.
        assert forall|k: Seq<u8>| image.contains(k) implies (k.len() == clen + 1 && k.first() == b
            && node_has(child, clen, k.drop_first())) by {
            let s = choose|s: Seq<u8>| node_keys(child, clen).contains(s) && k == f(s);
            lemma_node_key_len(child, clen, s);
            assert((seq![b] + s).first() == b);
            assert((seq![b] + s).drop_first() =~= s);
        }
        assert forall|k: Seq<u8>|
            (k.len() == clen + 1 && k.first() == b && node_has(
                child,
                clen,
                k.drop_first(),
            )) implies image.contains(k) by {
            assert(node_keys(child, clen).contains(k.drop_first()));
            assert(k =~= seq![b] + k.drop_first());
        }
        // The rest and the last entry contribute disjoint key sets, because
        // their first bytes differ.
        assert(children_keys(rest, clen).disjoint(image)) by {
            assert forall|k: Seq<u8>|
                children_keys(rest, clen).contains(k) implies !image.contains(k) by {
                lemma_children_has_char(rest, clen, k);
                let i = choose|i: int|
                    0 <= i < rest.len() && rest[i].0 == k.first() && node_has(
                        *rest[i].1,
                        clen,
                        k.drop_first(),
                    );
                assert(cs[i].0 == k.first());
                assert(cs[i].0 < b);
            }
        }
        assert(children_keys(cs, clen) =~= children_keys(rest, clen) + image);
        lemma_set_disjoint_lens(children_keys(rest, clen), image);
    }
}

/// A well-formed node holds at least one key; so its size is at least one.
pub(crate) proof fn lemma_node_size_pos(n: Node, len: nat)
    requires
        node_wf(n, len),
    ensures
        node_size(n, len) >= 1,
{
    lemma_node_size_is_len(n, len);
    lemma_node_some_key(n, len);
    let k = choose|k: Seq<u8>| #[trigger] node_keys(n, len).contains(k);
    assert(node_keys(n, len).remove(k).len() + 1 == node_keys(n, len).len());
}

/// A persistent set of fixed-length byte keys.
pub struct Trie {
    klen: usize,
    root: Option<Box<Node>>,
}

impl View for Trie {
    type V = Set<Seq<u8>>;

    /// A trie abstracts to the set of keys it holds.
    closed spec fn view(&self) -> Set<Seq<u8>> {
        match self.root {
            Option::None => Set::empty(),
            Option::Some(n) => node_keys(*n, self.klen as nat),
        }
    }
}

impl Trie {
    /// The key length this trie was created with.
    pub closed spec fn key_len(&self) -> nat {
        self.klen as nat
    }

    pub closed spec fn wf(&self) -> bool {
        match self.root {
            Option::None => true,
            Option::Some(n) => node_wf(*n, self.klen as nat),
        }
    }

    /// Every key held has the fixed key length, and the key set is finite.
    pub proof fn lemma_shape(&self)
        requires
            self.wf(),
        ensures
            self@.finite(),
            forall|k: Seq<u8>| self@.contains(k) ==> k.len() == self.key_len(),
    {
        match self.root {
            Option::None => {},
            Option::Some(n) => {
                lemma_node_size_is_len(*n, self.klen as nat);
                assert forall|k: Seq<u8>| self@.contains(k) implies k.len() == self.key_len() by {
                    lemma_node_key_len(*n, self.klen as nat, k);
                }
            },
        }
    }

    /// The empty trie over keys of length `klen`.
    pub fn new(klen: usize) -> (r: Trie)
        ensures
            r.wf(),
            r@ == Set::<Seq<u8>>::empty(),
            r.key_len() == klen as nat,
    {
        Trie { klen, root: None }
    }

    /// The key length, as a machine word.
    pub fn klen(&self) -> (r: usize)
        ensures
            r as nat == self.key_len(),
    {
        self.klen
    }

    /// How many keys the trie holds.
    pub fn count(&self) -> (r: usize)
        requires
            self.wf(),
        ensures
            r as nat == self@.len(),
    {
        proof {
            self.lemma_shape();
        }
        match &self.root {
            None => {
                proof {
                    assert(self@ =~= Set::<Seq<u8>>::empty());
                }
                0
            },
            Some(n) => {
                proof {
                    lemma_node_size_is_len(**n, self.klen as nat);
                }
                node_count(n, Ghost(self.klen as nat))
            },
        }
    }

    /// Is `key` one of the held keys?
    pub fn contains(&self, key: &Vec<u8>) -> (r: bool)
        requires
            self.wf(),
            key@.len() == self.key_len(),
        ensures
            r == self@.contains(key@),
    {
        match &self.root {
            None => false,
            Some(n) => {
                proof {
                    assert(key@.skip(0) =~= key@);
                }
                node_contains(n, key, 0)
            },
        }
    }
}

/// The cached key count of a well-formed node.
fn node_count(n: &Node, Ghost(len): Ghost<nat>) -> (r: usize)
    requires
        node_wf(*n, len),
    ensures
        r as nat == node_size(*n, len),
{
    match n {
        Node::Leaf => 1,
        Node::Branch { count, children } => *count,
    }
}

/// Find the entry of `cs` carrying byte `b`, if any.
fn find_child(cs: &Vec<(u8, Box<Node>)>, b: u8) -> (r: Option<usize>)
    ensures
        match r {
            Some(i) => i < cs@.len() && cs@[i as int].0 == b,
            None => forall|i: int| 0 <= i < cs@.len() ==> cs@[i].0 != b,
        },
{
    let mut i: usize = 0;
    while i < cs.len()
        invariant
            i <= cs@.len(),
            forall|j: int| 0 <= j < i ==> cs@[j].0 != b,
        decreases cs@.len() - i,
    {
        if cs[i].0 == b {
            return Some(i);
        }
        i = i + 1;
    }
    None
}

/// Does node `n` hold the suffix of `key` starting at `at`?
fn node_contains(n: &Node, key: &Vec<u8>, at: usize) -> (r: bool)
    requires
        at <= key@.len(),
        node_wf(*n, (key@.len() - at) as nat),
    ensures
        r == node_has(*n, (key@.len() - at) as nat, key@.skip(at as int)),
    decreases key@.len() - at,
{
    let ghost len = (key@.len() - at) as nat;
    let ghost k = key@.skip(at as int);
    match n {
        Node::Leaf => {
            proof {
                assert(k.len() == 0);
            }
            true
        },
        Node::Branch { count, children } => {
            proof {
                lemma_children_has_char(children@, (len - 1) as nat, k);
                lemma_children_wf_each(children@, (len - 1) as nat);
            }
            let key_total = key.len();
            let b = key[at];
            proof {
                assert(k.first() == b);
                assert(k.drop_first() =~= key@.skip(at + 1));
            }
            match find_child(children, b) {
                None => false,
                Some(i) => {
                    let r = node_contains(&children[i].1, key, at + 1);
                    proof {
                        if r {
                            assert(children@[i as int].0 == k.first() && node_has(
                                *children@[i as int].1,
                                (len - 1) as nat,
                                k.drop_first(),
                            ));
                        }
                        if node_has(*n, len, k) {
                            let j = choose|j: int|
                                0 <= j < children@.len() && children@[j].0 == k.first()
                                    && node_has(*children@[j].1, (len - 1) as nat, k.drop_first());
                            assert(j == i) by {
                                if j != i {
                                    assert(children@[j].0 == children@[i as int].0);
                                    if j < i {
                                        assert(children@[j].0 < children@[i as int].0);
                                    } else {
                                        assert(children@[i as int].0 < children@[j].0);
                                    }
                                }
                            }
                        }
                    }
                    r
                },
            }
        },
    }
}


/// A child list is well-formed as soon as each entry's subtrie is.
pub(crate) proof fn lemma_children_wf_from_each(cs: Seq<(u8, Box<Node>)>, clen: nat)
    requires
        forall|i: int| 0 <= i < cs.len() ==> node_wf(#[trigger] (*cs[i].1), clen),
    ensures
        children_wf(cs, clen),
    decreases cs.len(),
{
    if cs.len() > 0 {
        assert(forall|i: int| 0 <= i < cs.len() - 1 ==> cs.drop_last()[i] == cs[i]);
        lemma_children_wf_from_each(cs.drop_last(), clen);
    }
}

/// Each entry of a child list accounts for at most the whole list's size.
pub(crate) proof fn lemma_child_size_le(cs: Seq<(u8, Box<Node>)>, clen: nat, i: int)
    requires
        0 <= i < cs.len(),
    ensures
        node_size(*cs[i].1, clen) <= children_size(cs, clen),
    decreases cs.len(),
{
    if i == cs.len() - 1 {
    } else {
        assert(cs.drop_last()[i] == cs[i]);
        lemma_child_size_le(cs.drop_last(), clen, i);
    }
}

/// In a strictly sorted child list, at most one entry carries a given byte.
pub(crate) proof fn lemma_sorted_unique(cs: Seq<(u8, Box<Node>)>, i: int, j: int)
    requires
        children_sorted(cs),
        0 <= i < cs.len(),
        0 <= j < cs.len(),
        cs[i].0 == cs[j].0,
    ensures
        i == j,
{
    if i < j {
        assert(cs[i].0 < cs[j].0);
    }
    if j < i {
        assert(cs[j].0 < cs[i].0);
    }
}

/// Entry `x` mirrors entry `y`: same byte, well-formed, same keys, same size.
pub(crate) open spec fn copies(x: (u8, Box<Node>), y: (u8, Box<Node>), clen: nat) -> bool {
    &&& x.0 == y.0
    &&& node_wf(*x.1, clen)
    &&& node_keys(*x.1, clen) == node_keys(*y.1, clen)
    &&& node_size(*x.1, clen) == node_size(*y.1, clen)
}

/// Two child lists whose entries mirror each other pointwise hold the same
/// keys and have the same size.
pub(crate) proof fn lemma_children_pointwise(cs2: Seq<(u8, Box<Node>)>, cs: Seq<(u8, Box<Node>)>, clen: nat)
    requires
        cs2.len() == cs.len(),
        forall|jj: int| 0 <= jj < cs.len() ==> copies(#[trigger] cs2[jj], cs[jj], clen),
    ensures
        children_size(cs2, clen) == children_size(cs, clen),
        forall|k: Seq<u8>| children_has(cs2, clen, k) <==> children_has(cs, clen, k),
    decreases cs.len(),
{
    if cs.len() > 0 {
        assert(forall|jj: int| 0 <= jj < cs.len() - 1 ==> cs.drop_last()[jj] == cs[jj]);
        assert(forall|jj: int| 0 <= jj < cs2.len() - 1 ==> cs2.drop_last()[jj] == cs2[jj]);
        lemma_children_pointwise(cs2.drop_last(), cs.drop_last(), clen);
        assert(copies(cs2.last(), cs.last(), clen));
    }
    assert forall|k: Seq<u8>| children_has(cs2, clen, k) <==> children_has(cs, clen, k) by {
        lemma_children_has_char(cs2, clen, k);
        lemma_children_has_char(cs, clen, k);
        if children_has(cs2, clen, k) {
            let jj = choose|jj: int|
                0 <= jj < cs2.len() && cs2[jj].0 == k.first() && node_has(
                    *cs2[jj].1,
                    clen,
                    k.drop_first(),
                );
            assert(copies(cs2[jj], cs[jj], clen));
            assert(node_keys(*cs2[jj].1, clen).contains(k.drop_first()));
            assert(node_keys(*cs[jj].1, clen).contains(k.drop_first()));
        }
        if children_has(cs, clen, k) {
            let jj = choose|jj: int|
                0 <= jj < cs.len() && cs[jj].0 == k.first() && node_has(
                    *cs[jj].1,
                    clen,
                    k.drop_first(),
                );
            assert(copies(cs2[jj], cs[jj], clen));
            assert(node_keys(*cs[jj].1, clen).contains(k.drop_first()));
            assert(node_keys(*cs2[jj].1, clen).contains(k.drop_first()));
        }
    }
}

/// A sequence of length at least one is its first element followed by the
/// rest; so two sequences agreeing there are equal.
pub(crate) proof fn lemma_first_rest(q: Seq<u8>, k: Seq<u8>)
    requires
        q.len() >= 1,
        k.len() == q.len(),
        q.first() == k.first(),
        q.drop_first() == k.drop_first(),
    ensures
        q == k,
{
    assert forall|i: int| 0 <= i < q.len() implies q[i] == k[i] by {
        if i > 0 {
            assert(q.drop_first()[i - 1] == q[i]);
            assert(k.drop_first()[i - 1] == k[i]);
        }
    }
    assert(q =~= k);
}

/// Copy a node; the copy holds the same keys.
fn clone_node(n: &Node, Ghost(len): Ghost<nat>) -> (r: Node)
    requires
        node_wf(*n, len),
    ensures
        node_wf(r, len),
        node_keys(r, len) == node_keys(*n, len),
        node_size(r, len) == node_size(*n, len),
    decreases len, 0nat,
{
    match n {
        Node::Leaf => {
            let r = Node::Leaf;
            proof {
                assert(node_keys(r, len) =~= node_keys(*n, len));
            }
            r
        },
        Node::Branch { count, children } => {
            proof {
                lemma_children_wf_each(children@, (len - 1) as nat);
            }
            let cs2 = clone_children(children, Ghost((len - 1) as nat));
            let r = Node::Branch { count: *count, children: cs2 };
            proof {
                let clen = (len - 1) as nat;
                lemma_children_pointwise(cs2@, children@, clen);
                lemma_children_wf_from_each(cs2@, clen);
                assert forall|q: Seq<u8>| node_has(r, len, q) <==> node_has(*n, len, q) by {
                    assert(children_has(cs2@, clen, q) <==> children_has(children@, clen, q));
                }
                assert(node_keys(r, len) =~= node_keys(*n, len));
            }
            r
        },
    }
}

/// Copy a child list entry by entry.
fn clone_children(cs: &Vec<(u8, Box<Node>)>, Ghost(clen): Ghost<nat>) -> (r: Vec<(u8, Box<Node>)>)
    requires
        forall|i: int| 0 <= i < cs@.len() ==> node_wf(#[trigger] (*cs@[i].1), clen),
    ensures
        r@.len() == cs@.len(),
        forall|jj: int| 0 <= jj < cs@.len() ==> copies(#[trigger] r@[jj], cs@[jj], clen),
    decreases clen, 1nat,
{
    let mut r: Vec<(u8, Box<Node>)> = Vec::new();
    let mut j: usize = 0;
    while j < cs.len()
        invariant
            j <= cs@.len(),
            r@.len() == j,
            forall|i: int| 0 <= i < cs@.len() ==> node_wf(#[trigger] (*cs@[i].1), clen),
            forall|jj: int| 0 <= jj < j ==> copies(#[trigger] r@[jj], cs@[jj], clen),
        decreases cs@.len() - j,
    {
        let c = clone_node(&cs[j].1, Ghost(clen));
        r.push((cs[j].0, Box::new(c)));
        j = j + 1;
    }
    r
}

/// A one-path node chain holding exactly the suffix of `key` from `at`.
fn make_chain(key: &Vec<u8>, at: usize) -> (r: Node)
    requires
        at <= key@.len(),
    ensures
        node_wf(r, (key@.len() - at) as nat),
        node_size(r, (key@.len() - at) as nat) == 1,
        node_keys(r, (key@.len() - at) as nat) == Set::<Seq<u8>>::empty().insert(
            key@.skip(at as int),
        ),
    decreases key@.len() - at,
{
    let ghost len = (key@.len() - at) as nat;
    let ghost k = key@.skip(at as int);
    if at == key.len() {
        let r = Node::Leaf;
        proof {
            assert(k.len() == 0);
            assert forall|q: Seq<u8>| node_has(r, len, q) implies q == k by {
                assert(q =~= k);
            }
            assert(node_keys(r, len) =~= Set::<Seq<u8>>::empty().insert(k));
        }
        r
    } else {
        let b = key[at];
        let tail = make_chain(key, at + 1);
        let ghost clen = (key@.len() - (at + 1)) as nat;
        let ghost ktail = key@.skip(at as int + 1);
        let boxed = Box::new(tail);
        let mut children: Vec<(u8, Box<Node>)> = Vec::new();
        children.push((b, boxed));
        let r = Node::Branch { count: 1, children };
        proof {
            let cs = children@;
            assert(cs.len() == 1);
            assert(cs.last() == cs[0]);
            assert(cs.drop_last().len() == 0);
            assert(children_wf(cs.drop_last(), clen));
            assert(children_size(cs.drop_last(), clen) == 0);
            assert(node_wf(*cs[0].1, clen));
            assert(children_wf(cs, clen));
            assert(children_size(cs, clen) == 1);
            assert(node_wf(r, len));
            assert forall|q: Seq<u8>| node_has(r, len, q) implies q == k by {
                lemma_children_has_char(cs, clen, q);
                assert(q.first() == b && node_has(*cs[0].1, clen, q.drop_first()));
                assert(node_keys(*cs[0].1, clen).contains(q.drop_first()));
                assert(q.drop_first() == ktail);
                assert(k.first() == b);
                assert(k.drop_first() =~= ktail);
                lemma_first_rest(q, k);
            }
            assert(node_has(r, len, k)) by {
                assert(k.len() == clen + 1);
                assert(k.first() == b);
                assert(k.drop_first() =~= ktail);
                assert(node_keys(*cs.last().1, clen).contains(ktail));
                assert(node_keys(*cs.last().1, clen).contains(k.drop_first()));
                assert(node_has(*cs.last().1, clen, k.drop_first()));
            }
            assert(node_keys(r, len) =~= Set::<Seq<u8>>::empty().insert(k));
        }
        r
    }
}

/// Insert the suffix of `key` from `at` below `n`, building a new node.
#[verifier::loop_isolation(false)]
fn node_insert(n: &Node, key: &Vec<u8>, at: usize) -> (r: Node)
    requires
        at <= key@.len(),
        node_wf(*n, (key@.len() - at) as nat),
        node_size(*n, (key@.len() - at) as nat) < usize::MAX,
    ensures
        node_wf(r, (key@.len() - at) as nat),
        node_keys(r, (key@.len() - at) as nat) == node_keys(*n, (key@.len() - at) as nat).insert(
            key@.skip(at as int),
        ),
        node_has(*n, (key@.len() - at) as nat, key@.skip(at as int)) ==> node_size(
            r,
            (key@.len() - at) as nat,
        ) == node_size(*n, (key@.len() - at) as nat),
        !node_has(*n, (key@.len() - at) as nat, key@.skip(at as int)) ==> node_size(
            r,
            (key@.len() - at) as nat,
        ) == node_size(*n, (key@.len() - at) as nat) + 1,
    decreases key@.len() - at,
{
    let ghost len = (key@.len() - at) as nat;
    let ghost k = key@.skip(at as int);
    match n {
        Node::Leaf => {
            let r = Node::Leaf;
            proof {
                assert(k.len() == 0);
                assert(k =~= Seq::<u8>::empty());
                assert(node_has(*n, len, k));
                assert(node_keys(r, len) =~= node_keys(*n, len).insert(k));
            }
            r
        },
        Node::Branch { count, children } => {
            let ghost clen = (len - 1) as nat;
            let ghost ktail = key@.skip(at as int + 1);
            let key_total = key.len();
            let b = key[at];
            proof {
                assert(k.first() == b);
                assert(k.drop_first() =~= ktail);
                lemma_children_wf_each(children@, clen);
            }
            match find_child(children, b) {
                Some(i) => {
                    proof {
                        lemma_child_size_le(children@, clen, i as int);
                        lemma_children_size_is_len(children@, clen);
                    }
                    let old_c = node_count(&children[i].1, Ghost(clen));
                    let childp = node_insert(&children[i].1, key, at + 1);
                    let new_c = node_count(&childp, Ghost(clen));
                    let boxed = Box::new(childp);
                    let mut cs2: Vec<(u8, Box<Node>)> = Vec::new();
                    let mut j: usize = 0;
                    while j < children.len()
                        invariant
                            j <= children@.len(),
                            cs2@.len() == j,
                            forall|jj: int|
                                0 <= jj < j && jj != i ==> copies(
                                    #[trigger] cs2@[jj],
                                    children@[jj],
                                    clen,
                                ),
                            j > i ==> cs2@[i as int].0 == b && node_wf(*cs2@[i as int].1, clen)
                                && node_keys(*cs2@[i as int].1, clen) == node_keys(*boxed, clen)
                                && node_size(*cs2@[i as int].1, clen) == node_size(*boxed, clen),
                        decreases children@.len() - j,
                    {
                        if j == i {
                            let c = clone_node(&boxed, Ghost(clen));
                            cs2.push((b, Box::new(c)));
                        } else {
                            let c = clone_node(&children[j].1, Ghost(clen));
                            cs2.push((children[j].0, Box::new(c)));
                        }
                        j = j + 1;
                    }
                    let r_count = count + (new_c - old_c);
                    let r = Node::Branch { count: r_count, children: cs2 };
                    proof {
                        let cs = children@;
                        let t = cs2@;
                        let oldk = node_keys(*cs[i as int].1, clen);
                        let newk = node_keys(*boxed, clen);
                        assert(newk == oldk.insert(ktail));
                        assert(forall|jj: int| 0 <= jj < cs.len() ==> t[jj].0 == cs[jj].0);
                        assert(children_sorted(t));
                        assert forall|jj: int| 0 <= jj < t.len() implies node_wf(
                            #[trigger] (*t[jj].1),
                            clen,
                        ) by {
                            if jj != i {
                                assert(copies(t[jj], cs[jj], clen));
                            }
                        }
                        lemma_children_wf_from_each(t, clen);
                        // the new child list holds the old keys plus `k`
                        assert forall|q: Seq<u8>| children_has(t, clen, q) implies children_has(
                            cs,
                            clen,
                            q,
                        ) || q == k by {
                            lemma_children_has_char(t, clen, q);
                            lemma_children_has_char(cs, clen, q);
                            let jj = choose|jj: int|
                                0 <= jj < t.len() && t[jj].0 == q.first() && node_has(
                                    *t[jj].1,
                                    clen,
                                    q.drop_first(),
                                );
                            if jj == i {
                                assert(node_keys(*t[i as int].1, clen).contains(q.drop_first()));
                                assert(newk.contains(q.drop_first()));
                                if oldk.contains(q.drop_first()) {
                                    assert(node_has(*cs[i as int].1, clen, q.drop_first()));
                                } else {
                                    assert(q.drop_first() == ktail);
                                    assert(q.first() == b);
                                    assert(k.first() == b);
                                    assert(k.drop_first() =~= ktail);
                                    lemma_first_rest(q, k);
                                }
                            } else {
                                assert(copies(t[jj], cs[jj], clen));
                                assert(node_keys(*cs[jj].1, clen).contains(q.drop_first()));
                            }
                        }
                        assert forall|q: Seq<u8>| children_has(cs, clen, q) || q == k implies
                            children_has(t, clen, q) by {
                            lemma_children_has_char(t, clen, q);
                            lemma_children_has_char(cs, clen, q);
                            if children_has(cs, clen, q) {
                                let jj = choose|jj: int|
                                    0 <= jj < cs.len() && cs[jj].0 == q.first() && node_has(
                                        *cs[jj].1,
                                        clen,
                                        q.drop_first(),
                                    );
                                if jj == i {
                                    assert(oldk.contains(q.drop_first()));
                                    assert(newk.contains(q.drop_first()));
                                    assert(t[i as int].0 == q.first());
                                    assert(node_has(*t[i as int].1, clen, q.drop_first()));
                                } else {
                                    assert(copies(t[jj], cs[jj], clen));
                                    assert(node_keys(*t[jj].1, clen).contains(q.drop_first()));
                                }
                            } else {
                                assert(q.first() == b);
                                assert(q.drop_first() =~= ktail);
                                assert(newk.contains(q.drop_first()));
                                assert(t[i as int].0 == q.first());
                                assert(node_has(*t[i as int].1, clen, q.drop_first()));
                            }
                        }
                        assert(children_has(t, clen, k)) by {
                            lemma_children_has_char(t, clen, k);
                            assert(k.drop_first() =~= ktail);
                            assert(newk.contains(ktail));
                            assert(node_keys(*t[i as int].1, clen).contains(k.drop_first()));
                            assert(t[i as int].0 == k.first() && node_has(
                                *t[i as int].1,
                                clen,
                                k.drop_first(),
                            ));
                        }
                        assert(children_keys(t, clen) =~= children_keys(cs, clen).insert(k));
                        assert forall|q: Seq<u8>| node_has(r, len, q) <==> (node_has(*n, len, q)
                            || q == k) by {
                            assert(node_has(r, len, q) == children_keys(t, clen).contains(q));
                            assert(node_has(*n, len, q) == children_keys(cs, clen).contains(q));
                            assert(children_keys(cs, clen).insert(k).contains(q) == (
                            children_keys(cs, clen).contains(q) || q == k));
                        }
                        assert(node_keys(r, len) =~= node_keys(*n, len).insert(k));
                        // the cached count matches the structural size
                        lemma_children_size_is_len(t, clen);
                        lemma_children_size_is_len(cs, clen);
                        if node_has(*n, len, k) {
                            lemma_children_has_char(cs, clen, k);
                            let jj = choose|jj: int|
                                0 <= jj < cs.len() && cs[jj].0 == k.first() && node_has(
                                    *cs[jj].1,
                                    clen,
                                    k.drop_first(),
                                );
                            lemma_sorted_unique(cs, jj, i as int);
                            assert(oldk.contains(ktail));
                            assert(children_keys(t, clen) =~= children_keys(cs, clen));
                        } else {
                            assert(!children_keys(cs, clen).contains(k));
                            if oldk.contains(ktail) {
                                assert(k.len() == clen + 1 && cs[i as int].0 == k.first()
                                    && node_has(*cs[i as int].1, clen, k.drop_first()));
                                lemma_children_has_char(cs, clen, k);
                                assert(false);
                            }
                        }
                        assert(node_wf(r, len));
                    }
                    r
                },
                None => {
                    let chain = make_chain(key, at + 1);
                    let boxed = Box::new(chain);
                    let pos = find_slot(children, b);
                    let mut cs2: Vec<(u8, Box<Node>)> = Vec::new();
                    let mut j: usize = 0;
                    while j < pos
                        invariant
                            j <= pos,
                            cs2@.len() == j,
                            forall|jj: int|
                                0 <= jj < j ==> copies(#[trigger] cs2@[jj], children@[jj], clen),
                        decreases pos - j,
                    {
                        let c = clone_node(&children[j].1, Ghost(clen));
                        cs2.push((children[j].0, Box::new(c)));
                        j = j + 1;
                    }
                    let c0 = clone_node(&boxed, Ghost(clen));
                    cs2.push((b, Box::new(c0)));
                    let mut j2: usize = pos;
                    while j2 < children.len()
                        invariant
                            pos <= j2 <= children@.len(),
                            cs2@.len() == j2 + 1,
                            forall|jj: int|
                                0 <= jj < pos ==> copies(#[trigger] cs2@[jj], children@[jj], clen),
                            cs2@[pos as int].0 == b,
                            node_wf(*cs2@[pos as int].1, clen),
                            node_keys(*cs2@[pos as int].1, clen) == node_keys(*boxed, clen),
                            node_size(*cs2@[pos as int].1, clen) == 1,
                            forall|jj: int|
                                pos < jj <= j2 ==> copies(
                                    #[trigger] cs2@[jj],
                                    children@[jj - 1],
                                    clen,
                                ),
                        decreases children@.len() - j2,
                    {
                        let c = clone_node(&children[j2].1, Ghost(clen));
                        cs2.push((children[j2].0, Box::new(c)));
                        j2 = j2 + 1;
                    }
                    let r_count = count + 1;
                    let r = Node::Branch { count: r_count, children: cs2 };
                    proof {
                        let cs = children@;
                        let t = cs2@;
                        let newk = node_keys(*boxed, clen);
                        assert(t.len() == cs.len() + 1);
                        assert(children_sorted(t)) by {
                            assert forall|x: int, y: int| 0 <= x < y < t.len() implies (t[x].0
                                < t[y].0) by {
                                if x < pos && y < pos {
                                } else if x < pos && y == pos {
                                    assert(t[x].0 == cs[x].0);
                                } else if x == pos {
                                    assert(t[y].0 == cs[y - 1].0);
                                } else if x > pos {
                                    assert(t[x].0 == cs[x - 1].0);
                                    if y > pos {
                                        assert(t[y].0 == cs[y - 1].0);
                                    }
                                } else if x < pos && y > pos {
                                    assert(t[x].0 == cs[x].0);
                                    assert(t[y].0 == cs[y - 1].0);
                                    assert(cs[x].0 < cs[y - 1].0);
                                }
                            }
                        }
                        assert forall|jj: int| 0 <= jj < t.len() implies node_wf(
                            #[trigger] (*t[jj].1),
                            clen,
                        ) by {
                            if jj < pos {
                                assert(copies(t[jj], cs[jj], clen));
                            } else if jj > pos {
                                assert(copies(t[jj], cs[jj - 1], clen));
                            }
                        }
                        lemma_children_wf_from_each(t, clen);
                        assert forall|q: Seq<u8>| children_has(t, clen, q) implies children_has(
                            cs,
                            clen,
                            q,
                        ) || q == k by {
                            lemma_children_has_char(t, clen, q);
                            lemma_children_has_char(cs, clen, q);
                            let jj = choose|jj: int|
                                0 <= jj < t.len() && t[jj].0 == q.first() && node_has(
                                    *t[jj].1,
                                    clen,
                                    q.drop_first(),
                                );
                            if jj == pos {
                                assert(q.first() == b);
                                assert(node_keys(*t[pos as int].1, clen).contains(q.drop_first()));
                                assert(newk.contains(q.drop_first()));
                                assert(q.drop_first() == ktail);
                                assert(k.first() == b);
                                assert(k.drop_first() =~= ktail);
                                lemma_first_rest(q, k);
                            } else if jj < pos {
                                assert(copies(t[jj], cs[jj], clen));
                                assert(node_keys(*cs[jj].1, clen).contains(q.drop_first()));
                            } else {
                                assert(copies(t[jj], cs[jj - 1], clen));
                                assert(node_keys(*cs[jj - 1].1, clen).contains(q.drop_first()));
                            }
                        }
                        assert forall|q: Seq<u8>| children_has(cs, clen, q) || q == k implies
                            children_has(t, clen, q) by {
                            lemma_children_has_char(t, clen, q);
                            lemma_children_has_char(cs, clen, q);
                            if children_has(cs, clen, q) {
                                let jj = choose|jj: int|
                                    0 <= jj < cs.len() && cs[jj].0 == q.first() && node_has(
                                        *cs[jj].1,
                                        clen,
                                        q.drop_first(),
                                    );
                                if jj < pos {
                                    assert(copies(t[jj], cs[jj], clen));
                                    assert(node_keys(*t[jj].1, clen).contains(q.drop_first()));
                                    assert(t[jj].0 == q.first() && node_has(
                                        *t[jj].1,
                                        clen,
                                        q.drop_first(),
                                    ));
                                } else {
                                    assert(copies(t[jj + 1], cs[jj], clen));
                                    assert(node_keys(*t[jj + 1].1, clen).contains(q.drop_first()));
                                    assert(t[jj + 1].0 == q.first() && node_has(
                                        *t[jj + 1].1,
                                        clen,
                                        q.drop_first(),
                                    ));
                                }
                            } else {
                                assert(k.len() == clen + 1);
                                assert(k.first() == b);
                                assert(k.drop_first() =~= ktail);
                                assert(newk.contains(ktail));
                                assert(t[pos as int].0 == k.first() && node_has(
                                    *t[pos as int].1,
                                    clen,
                                    k.drop_first(),
                                ));
                            }
                        }
                        assert(children_has(t, clen, k)) by {
                            lemma_children_has_char(t, clen, k);
                            assert(k.drop_first() =~= ktail);
                            assert(newk.contains(ktail));
                            assert(node_keys(*t[pos as int].1, clen).contains(k.drop_first()));
                            assert(t[pos as int].0 == k.first() && node_has(
                                *t[pos as int].1,
                                clen,
                                k.drop_first(),
                            ));
                        }
                        assert(children_keys(t, clen) =~= children_keys(cs, clen).insert(k));
                        assert forall|q: Seq<u8>| node_has(r, len, q) <==> (node_has(*n, len, q)
                            || q == k) by {
                            assert(node_has(r, len, q) == children_keys(t, clen).contains(q));
                            assert(node_has(*n, len, q) == children_keys(cs, clen).contains(q));
                            assert(children_keys(cs, clen).insert(k).contains(q) == (
                            children_keys(cs, clen).contains(q) || q == k));
                        }
                        assert(node_keys(r, len) =~= node_keys(*n, len).insert(k));
                        lemma_children_size_is_len(t, clen);
                        lemma_children_size_is_len(cs, clen);
                        assert(!children_keys(cs, clen).contains(k)) by {
                            if children_has(cs, clen, k) {
                                lemma_children_has_char(cs, clen, k);
                                let jj = choose|jj: int|
                                    0 <= jj < cs.len() && cs[jj].0 == k.first() && node_has(
                                        *cs[jj].1,
                                        clen,
                                        k.drop_first(),
                                    );
                                assert(cs[jj].0 == b);
                            }
                        }
                        assert(node_wf(r, len));
                    }
                    r
                },
            }
        },
    }
}

/// In a sorted child list without byte `b`, the slot where `b` belongs.
fn find_slot(cs: &Vec<(u8, Box<Node>)>, b: u8) -> (r: usize)
    requires
        children_sorted(cs@),
        forall|i: int| 0 <= i < cs@.len() ==> cs@[i].0 != b,
    ensures
        r <= cs@.len(),
        forall|i: int| 0 <= i < r ==> cs@[i].0 < b,
        forall|i: int| r <= i < cs@.len() ==> cs@[i].0 > b,
{
    let mut i: usize = 0;
    while i < cs.len()
        invariant
            i <= cs@.len(),
            children_sorted(cs@),
            forall|j: int| 0 <= j < cs@.len() ==> cs@[j].0 != b,
            forall|j: int| 0 <= j < i ==> cs@[j].0 < b,
        decreases cs@.len() - i,
    {
        if cs[i].0 > b {
            return i;
        }
        i = i + 1;
    }
    i
}

impl Trie {
    /// A new trie holding everything this one holds, plus `key`.  The
    /// receiver is left unchanged, so both versions stay usable.
    pub fn insert(&self, key: &Vec<u8>) -> (r: Trie)
        requires
            self.wf(),
            key@.len() == self.key_len(),
            self@.len() < usize::MAX,
        ensures
            r.wf(),
            r.key_len() == self.key_len(),
            r@ == self@.insert(key@),
    {
        proof {
            assert(key@.skip(0) =~= key@);
        }
        match &self.root {
            None => {
                let n = make_chain(key, 0);
                let r = Trie { klen: self.klen, root: Some(Box::new(n)) };
                proof {
                    assert(r@ =~= self@.insert(key@));
                }
                r
            },
            Some(root) => {
                proof {
                    lemma_node_size_is_len(**root, self.klen as nat);
                }
                let n = node_insert(root, key, 0);
                let r = Trie { klen: self.klen, root: Some(Box::new(n)) };
                proof {
                    assert(r@ =~= self@.insert(key@));
                }
                r
            },
        }
    }
}


/// Strict lexicographic order on byte strings.
pub open spec fn lex_lt(a: Seq<u8>, b: Seq<u8>) -> bool
    decreases a.len(),
{
    if b.len() == 0 {
        false
    } else if a.len() == 0 {
        true
    } else if a.first() < b.first() {
        true
    } else if a.first() > b.first() {
        false
    } else {
        lex_lt(a.drop_first(), b.drop_first())
    }
}

/// Two strings agreeing up to position `n` and differing there compare
/// by the bytes at `n`.
pub proof fn lemma_lex_prefix(a: Seq<u8>, b: Seq<u8>, n: int)
    requires
        0 <= n < a.len(),
        n < b.len(),
        forall|t: int| 0 <= t < n ==> a[t] == b[t],
        a[n] < b[n],
    ensures
        lex_lt(a, b),
    decreases n,
{
    if n == 0 {
    } else {
        assert(a.first() == b.first());
        assert forall|t: int| 0 <= t < n - 1 implies a.drop_first()[t] == b.drop_first()[t] by {
            assert(a.drop_first()[t] == a[t + 1]);
            assert(b.drop_first()[t] == b[t + 1]);
        }
        assert(a.drop_first()[n - 1] == a[n]);
        assert(b.drop_first()[n - 1] == b[n]);
        lemma_lex_prefix(a.drop_first(), b.drop_first(), n - 1);
    }
}

/// Prepending the same byte preserves the order.
pub proof fn lemma_lex_prepend(x: Seq<u8>, y: Seq<u8>, b: u8)
    requires
        lex_lt(x, y),
    ensures
        lex_lt(seq![b] + x, seq![b] + y),
{
    assert((seq![b] + x).first() == b);
    assert((seq![b] + y).first() == b);
    assert((seq![b] + x).drop_first() =~= x);
    assert((seq![b] + y).drop_first() =~= y);
}

/// The subset of `s` whose elements start with `p`.
pub open spec fn prefixed(s: Set<Seq<u8>>, p: Seq<u8>) -> Set<Seq<u8>> {
    Set::new(|k: Seq<u8>| s.contains(k) && p.is_prefix_of(k))
}

/// A byte-for-byte copy of a vector.
pub(crate) fn copy_bytes(v: &Vec<u8>) -> (r: Vec<u8>)
    ensures
        r@ == v@,
{
    let mut r: Vec<u8> = Vec::new();
    let mut t: usize = 0;
    while t < v.len()
        invariant
            t <= v@.len(),
            r@ == v@.take(t as int),
        decreases v@.len() - t,
    {
        let x = v[t];
        r.push(x);
        proof {
            assert(v@.take(t as int + 1) =~= v@.take(t as int).push(v@[t as int]));
        }
        t = t + 1;
    }
    proof {
        assert(v@.take(v@.len() as int) =~= v@);
    }
    r
}

/// Walk down from `n` along the bytes of `p` from position `at`; the node
/// reached holds exactly the continuations of that prefix.
fn node_descend<'a>(n: &'a Node, p: &Vec<u8>, at: usize, Ghost(len): Ghost<nat>) -> (r: Option<
    &'a Node,
>)
    requires
        at <= p@.len(),
        node_wf(*n, len),
        p@.len() - at <= len,
    ensures
        match r {
            Some(m) => node_wf(*m, (len - (p@.len() - at)) as nat) && forall|q: Seq<u8>|
                #![trigger node_has(*m, (len - (p@.len() - at)) as nat, q)]
                #![trigger node_has(*n, len, p@.skip(at as int) + q)]
                node_has(*m, (len - (p@.len() - at)) as nat, q) <==> node_has(
                    *n,
                    len,
                    p@.skip(at as int) + q,
                ),
            None => forall|k: Seq<u8>| #[trigger]
                node_has(*n, len, k) ==> !p@.skip(at as int).is_prefix_of(k),
        },
    decreases p@.len() - at,
{
    let ghost psuf = p@.skip(at as int);
    if at == p.len() {
        proof {
            assert forall|q: Seq<u8>| psuf + q == q by {
                assert(psuf + q =~= q);
            }
        }
        return Some(n);
    }
    match n {
        Node::Leaf => {
            proof {
                assert(false);
            }
            None
        },
        Node::Branch { count, children } => {
            let ghost clen = (len - 1) as nat;
            let b = p[at];
            proof {
                lemma_children_wf_each(children@, clen);
                assert(psuf.first() == b);
            }
            match find_child(children, b) {
                None => {
                    proof {
                        assert forall|k: Seq<u8>| #[trigger]
                            node_has(*n, len, k) implies !psuf.is_prefix_of(k) by {
                            lemma_children_has_char(children@, clen, k);
                            if psuf.is_prefix_of(k) {
                                let jj = choose|jj: int|
                                    0 <= jj < children@.len() && children@[jj].0 == k.first()
                                        && node_has(*children@[jj].1, clen, k.drop_first());
                                assert(k[0] == psuf[0]);
                                assert(children@[jj].0 == b);
                            }
                        }
                    }
                    None
                },
                Some(i) => {
                    let res = node_descend(&children[i].1, p, at + 1, Ghost(clen));
                    let ghost psuf2 = p@.skip(at as int + 1);
                    let ghost len2 = (len - (p@.len() - at)) as nat;
                    proof {
                        assert(psuf.drop_first() =~= psuf2);
                    }
                    match res {
                        Some(m) => {
                            proof {
                                assert forall|q: Seq<u8>|
                                    #![trigger node_has(*m, len2, q)]
                                    #![trigger node_has(*n, len, psuf + q)]
                                    node_has(*m, len2, q) <==> node_has(*n, len, psuf + q) by {
                                    lemma_children_has_char(children@, clen, psuf + q);
                                    assert((psuf + q).first() == b);
                                    assert((psuf + q).drop_first() =~= psuf2 + q);
                                    if node_has(*m, len2, q) {
                                        lemma_node_key_len(*m, len2, q);
                                        assert(node_has(*children@[i as int].1, clen, psuf2 + q));
                                        assert((psuf + q).len() == clen + 1);
                                        assert(children_has(children@, clen, psuf + q));
                                    }
                                    if node_has(*n, len, psuf + q) {
                                        let jj = choose|jj: int|
                                            0 <= jj < children@.len() && children@[jj].0 == (psuf
                                                + q).first() && node_has(
                                                *children@[jj].1,
                                                clen,
                                                (psuf + q).drop_first(),
                                            );
                                        lemma_sorted_unique(children@, jj, i as int);
                                        assert(node_has(*children@[i as int].1, clen, psuf2 + q));
                                    }
                                }
                            }
                            Some(m)
                        },
                        None => {
                            proof {
                                assert forall|k: Seq<u8>| #[trigger]
                                    node_has(*n, len, k) implies !psuf.is_prefix_of(k) by {
                                    lemma_children_has_char(children@, clen, k);
                                    if psuf.is_prefix_of(k) {
                                        let jj = choose|jj: int|
                                            0 <= jj < children@.len() && children@[jj].0
                                                == k.first() && node_has(
                                                *children@[jj].1,
                                                clen,
                                                k.drop_first(),
                                            );
                                        assert(k[0] == psuf[0]);
                                        lemma_sorted_unique(children@, jj, i as int);
                                        assert(node_has(*children@[i as int].1, clen, k.drop_first()));
                                        assert forall|t: int| 0 <= t < psuf2.len() implies psuf2[t]
                                            == k.drop_first().take(psuf2.len() as int)[t] by {
                                            assert(psuf[t + 1] == k.take(psuf.len() as int)[t + 1]);
                                        }
                                        assert(psuf2 =~= k.drop_first().take(psuf2.len() as int));
                                        assert(psuf2.is_prefix_of(k.drop_first()));
                                    }
                                }
                            }
                            None
                        },
                    }
                },
            }
        },
    }
}


/// Collect every suffix below `n`, one vector per key, no duplicates.
#[verifier::loop_isolation(false)]
fn node_collect(n: &Node, Ghost(len): Ghost<nat>) -> (r: Vec<Vec<u8>>)
    requires
        node_wf(*n, len),
    ensures
        r@.len() == node_size(*n, len),
        forall|j: int| 0 <= j < r@.len() ==> node_has(*n, len, #[trigger] r@[j]@),
        forall|q: Seq<u8>| #[trigger]
            node_has(*n, len, q) ==> exists|j: int| 0 <= j < r@.len() && r@[j]@ == q,
        forall|j1: int, j2: int| 0 <= j1 < j2 < r@.len() ==> r@[j1]@ != r@[j2]@,
        forall|j1: int, j2: int| 0 <= j1 < j2 < r@.len() ==> lex_lt(r@[j1]@, r@[j2]@),
    decreases len, 0nat,
{
    match n {
        Node::Leaf => {
            let mut r: Vec<Vec<u8>> = Vec::new();
            r.push(Vec::new());
            proof {
                assert(r@[0]@ =~= Seq::<u8>::empty());
                assert forall|q: Seq<u8>| #[trigger] node_has(*n, len, q) implies exists|j: int|
                    0 <= j < r@.len() && r@[j]@ == q by {
                    assert(q =~= Seq::<u8>::empty());
                    assert(r@[0]@ == q);
                }
            }
            r
        },
        Node::Branch { count, children } => {
            let ghost clen = (len - 1) as nat;
            let ghost cs = children@;
            proof {
                lemma_children_wf_each(cs, clen);
            }
            let mut r: Vec<Vec<u8>> = Vec::new();
            let mut i: usize = 0;
            while i < children.len()
                invariant
                    i <= cs.len(),
                    r@.len() == children_size(cs.take(i as int), clen),
                    forall|j: int|
                        0 <= j < r@.len() ==> children_has(cs.take(i as int), clen, #[trigger] r@[j]@),
                    forall|q: Seq<u8>| #[trigger]
                        children_has(cs.take(i as int), clen, q) ==> exists|j: int|
                            0 <= j < r@.len() && r@[j]@ == q,
                    forall|j1: int, j2: int| 0 <= j1 < j2 < r@.len() ==> r@[j1]@ != r@[j2]@,
                    forall|j1: int, j2: int| 0 <= j1 < j2 < r@.len() ==> lex_lt(r@[j1]@, r@[j2]@),
                decreases cs.len() - i,
            {
                let b = children[i].0;
                let sub = node_collect(&children[i].1, Ghost(clen));
                let ghost r_old = r@;
                let mut j: usize = 0;
                while j < sub.len()
                    invariant
                        j <= sub@.len(),
                        r@.len() == r_old.len() + j,
                        forall|jj: int| 0 <= jj < r_old.len() ==> r@[jj] == r_old[jj],
                        forall|jj: int|
                            0 <= jj < j ==> #[trigger] r@[r_old.len() + jj]@ == seq![b] + sub@[jj]@,
                    decreases sub@.len() - j,
                {
                    let sj = &sub[j];
                    let mut key: Vec<u8> = Vec::new();
                    key.push(b);
                    let mut t: usize = 0;
                    while t < sj.len()
                        invariant
                            t <= sj@.len(),
                            key@ == seq![b] + sj@.take(t as int),
                        decreases sj@.len() - t,
                    {
                        let x = sj[t];
                        key.push(x);
                        proof {
                            assert(sj@.take(t as int + 1) =~= sj@.take(t as int).push(sj@[t as int]));
                            assert(key@ =~= seq![b] + sj@.take(t as int + 1));
                        }
                        t = t + 1;
                    }
                    proof {
                        assert(sj@.take(sj@.len() as int) =~= sj@);
                    }
                    r.push(key);
                    j = j + 1;
                }
                proof {
                    let csi = cs.take(i as int);
                    let csi1 = cs.take(i as int + 1);
                    assert(csi1.drop_last() =~= csi);
                    assert(csi1.last() == cs[i as int]);
                    assert(children_size(csi1, clen) == children_size(csi, clen) + node_size(
                        *cs[i as int].1,
                        clen,
                    ));
                    // keys through the first i+1 children, characterized
                    assert forall|q: Seq<u8>| #[trigger] children_has(csi1, clen, q) implies (
                    children_has(csi, clen, q) || (q.len() == clen + 1 && q.first() == b
                        && node_has(*cs[i as int].1, clen, q.drop_first()))) by {}
                    assert forall|q: Seq<u8>|
                        children_has(csi, clen, q) || (q.len() == clen + 1 && q.first() == b
                            && node_has(*cs[i as int].1, clen, q.drop_first())) implies #[trigger]
                        children_has(csi1, clen, q) by {}
                    // every entry emitted so far lies under the first i+1 children
                    assert forall|jj: int| 0 <= jj < r@.len() implies children_has(
                        csi1,
                        clen,
                        #[trigger] r@[jj]@,
                    ) by {
                        if jj < r_old.len() {
                            assert(r@[jj]@ == r_old[jj]@);
                            assert(children_has(csi, clen, r@[jj]@));
                        } else {
                            let q = r@[jj]@;
                            assert(r@[r_old.len() + (jj - r_old.len())]@ == seq![b] + sub@[jj
                                - r_old.len()]@);
                            assert(q == seq![b] + sub@[jj - r_old.len()]@);
                            assert(q.first() == b);
                            assert(q.drop_first() =~= sub@[jj - r_old.len()]@);
                            assert(node_has(*cs[i as int].1, clen, q.drop_first()));
                            lemma_node_key_len(*cs[i as int].1, clen, q.drop_first());
                        }
                    }
                    // and everything under them was emitted
                    assert forall|q: Seq<u8>| #[trigger]
                        children_has(csi1, clen, q) implies exists|jj: int|
                        0 <= jj < r@.len() && r@[jj]@ == q by {
                        if children_has(csi, clen, q) {
                            let jj = choose|jj: int| 0 <= jj < r_old.len() && r_old[jj]@ == q;
                            assert(r@[jj]@ == q);
                        } else {
                            let qt = q.drop_first();
                            assert(node_has(*cs[i as int].1, clen, qt));
                            let jj = choose|jj: int| 0 <= jj < sub@.len() && sub@[jj]@ == qt;
                            assert(r@[r_old.len() + jj]@ == seq![b] + qt);
                            assert(seq![b] + qt =~= q);
                        }
                    }
                    // distinctness: old entries start with an earlier byte
                    assert forall|j1: int, j2: int| 0 <= j1 < j2 < r@.len() implies r@[j1]@
                        != r@[j2]@ by {
                        if j2 < r_old.len() {
                            assert(r@[j1] == r_old[j1]);
                            assert(r@[j2] == r_old[j2]);
                            assert(r_old[j1]@ != r_old[j2]@);
                        } else if j1 >= r_old.len() {
                            assert(r@[r_old.len() + (j1 - r_old.len())]@ == seq![b] + sub@[j1
                                - r_old.len()]@);
                            assert(r@[r_old.len() + (j2 - r_old.len())]@ == seq![b] + sub@[j2
                                - r_old.len()]@);
                            assert(r@[j1]@ == seq![b] + sub@[j1 - r_old.len()]@);
                            assert(r@[j2]@ == seq![b] + sub@[j2 - r_old.len()]@);
                            assert(sub@[j1 - r_old.len()]@ != sub@[j2 - r_old.len()]@);
                            assert((seq![b] + sub@[j1 - r_old.len()]@).drop_first() =~= sub@[j1
                                - r_old.len()]@);
                            assert((seq![b] + sub@[j2 - r_old.len()]@).drop_first() =~= sub@[j2
                                - r_old.len()]@);
                        } else {
                            let q1 = r@[j1]@;
                            let q2 = r@[j2]@;
                            assert(r@[j1] == r_old[j1]);
                            assert(children_has(csi, clen, q1));
                            assert(r@[r_old.len() + (j2 - r_old.len())]@ == seq![b] + sub@[j2
                                - r_old.len()]@);
                            assert(q2 == seq![b] + sub@[j2 - r_old.len()]@);
                            lemma_children_has_char(csi, clen, q1);
                            let w = choose|w: int|
                                0 <= w < csi.len() && csi[w].0 == q1.first() && node_has(
                                    *csi[w].1,
                                    clen,
                                    q1.drop_first(),
                                );
                            assert(cs[w].0 == q1.first());
                            assert(cs[w].0 < b);
                            assert(q2.first() == b);
                        }
                    }
                    // and every earlier entry orders below every new one
                    assert forall|j1: int, j2: int| 0 <= j1 < j2 < r@.len() implies lex_lt(
                        r@[j1]@,
                        r@[j2]@,
                    ) by {
                        if j2 < r_old.len() {
                            assert(r@[j1] == r_old[j1]);
                            assert(r@[j2] == r_old[j2]);
                            assert(lex_lt(r_old[j1]@, r_old[j2]@));
                        } else if j1 >= r_old.len() {
                            assert(r@[r_old.len() + (j1 - r_old.len())]@ == seq![b] + sub@[j1
                                - r_old.len()]@);
                            assert(r@[r_old.len() + (j2 - r_old.len())]@ == seq![b] + sub@[j2
                                - r_old.len()]@);
                            assert(lex_lt(sub@[j1 - r_old.len()]@, sub@[j2 - r_old.len()]@));
                            lemma_lex_prepend(sub@[j1 - r_old.len()]@, sub@[j2 - r_old.len()]@, b);
                        } else {
                            let q1 = r@[j1]@;
                            let q2 = r@[j2]@;
                            assert(r@[j1] == r_old[j1]);
                            assert(children_has(csi, clen, q1));
                            lemma_children_has_char(csi, clen, q1);
                            let w = choose|w: int|
                                0 <= w < csi.len() && csi[w].0 == q1.first() && node_has(
                                    *csi[w].1,
                                    clen,
                                    q1.drop_first(),
                                );
                            assert(r@[r_old.len() + (j2 - r_old.len())]@ == seq![b] + sub@[j2
                                - r_old.len()]@);
                            assert(q2 == seq![b] + sub@[j2 - r_old.len()]@);
                            assert(q1[0] == q1.first());
                            assert(q1[0] == cs[w].0);
                            assert(cs[w].0 < b);
                            assert(q2[0] == b);
                            lemma_lex_prefix(q1, q2, 0);
                        }
                    }
                }
                i = i + 1;
            }
            proof {
                assert(cs.take(cs.len() as int) =~= cs);
                assert forall|q: Seq<u8>| #[trigger] node_has(*n, len, q) implies exists|j: int|
                    0 <= j < r@.len() && r@[j]@ == q by {
                    assert(children_has(cs.take(i as int), clen, q) == children_has(cs, clen, q));
                }
            }
            r
        },
    }
}

impl Trie {
    /// Does any held key start with `p`?
    pub fn has_prefix(&self, p: &Vec<u8>) -> (r: bool)
        requires
            self.wf(),
            p@.len() <= self.key_len(),
        ensures
            r == (exists|k: Seq<u8>| self@.contains(k) && p@.is_prefix_of(k)),
    {
        match &self.root {
            None => {
                proof {
                    assert forall|k: Seq<u8>| !(self@.contains(k) && p@.is_prefix_of(k)) by {}
                }
                false
            },
            Some(root) => {
                proof {
                    assert(p@.skip(0) =~= p@);
                }
                let d = node_descend(root, p, 0, Ghost(self.klen as nat));
                match d {
                    None => {
                        proof {
                            assert forall|k: Seq<u8>| self@.contains(k) implies !p@.is_prefix_of(
                                k,
                            ) by {}
                        }
                        false
                    },
                    Some(m) => {
                        proof {
                            let len2 = ((self.klen as nat) - p@.len()) as nat;
                            lemma_node_some_key(*m, len2);
                            let q = choose|q: Seq<u8>| #[trigger] node_keys(*m, len2).contains(q);
                            assert(node_has(**root, self.klen as nat, p@ + q));
                            assert(self@.contains(p@ + q));
                            assert(p@.is_prefix_of(p@ + q)) by {
                                assert((p@ + q).take(p@.len() as int) =~= p@);
                            }
                        }
                        true
                    },
                }
            },
        }
    }

    /// How many held keys start with `p`.
    pub fn count_prefix(&self, p: &Vec<u8>) -> (r: usize)
        requires
            self.wf(),
            p@.len() <= self.key_len(),
        ensures
            prefixed(self@, p@).finite(),
            r as nat == prefixed(self@, p@).len(),
    {
        match &self.root {
            None => {
                proof {
                    assert(prefixed(self@, p@) =~= Set::<Seq<u8>>::empty());
                }
                0
            },
            Some(root) => {
                proof {
                    assert(p@.skip(0) =~= p@);
                }
                let d = node_descend(root, p, 0, Ghost(self.klen as nat));
                match d {
                    None => {
                        proof {
                            assert forall|k: Seq<u8>| !(#[trigger] prefixed(self@, p@).contains(
                                k,
                            )) by {}
                            assert(prefixed(self@, p@) =~= Set::<Seq<u8>>::empty());
                        }
                        0
                    },
                    Some(m) => {
                        let ghost len2 = ((self.klen as nat) - p@.len()) as nat;
                        let c = node_count(m, Ghost(len2));
                        proof {
                            lemma_node_size_is_len(*m, len2);
                            let f = |q: Seq<u8>| p@ + q;
                            assert(injective_on(f, node_keys(*m, len2))) by {
                                assert forall|x: Seq<u8>, y: Seq<u8>|
                                    node_keys(*m, len2).contains(x) && node_keys(
                                        *m,
                                        len2,
                                    ).contains(y) && f(x) == f(y) implies x == y by {
                                    assert((p@ + x).skip(p@.len() as int) =~= x);
                                    assert((p@ + y).skip(p@.len() as int) =~= y);
                                }
                            }
                            assert(node_keys(*m, len2).map(f) =~= prefixed(self@, p@)) by {
                                assert forall|k: Seq<u8>| #[trigger] prefixed(self@, p@).contains(
                                    k,
                                ) implies node_keys(*m, len2).map(f).contains(k) by {
                                    let q = k.skip(p@.len() as int);
                                    assert(p@ + q =~= k);
                                    assert(node_has(*m, len2, q));
                                    assert(node_keys(*m, len2).contains(q) && k == f(q));
                                }
                                assert forall|k: Seq<u8>| node_keys(*m, len2).map(f).contains(
                                    k,
                                ) implies #[trigger] prefixed(self@, p@).contains(k) by {
                                    let q = choose|q: Seq<u8>|
                                        node_keys(*m, len2).contains(q) && k == f(q);
                                    assert(node_has(**root, self.klen as nat, p@ + q));
                                    assert(p@.is_prefix_of(k)) by {
                                        assert((p@ + q).take(p@.len() as int) =~= p@);
                                    }
                                }
                            }
                            lemma_map_size(node_keys(*m, len2), prefixed(self@, p@), f);
                        }
                        c
                    },
                }
            },
        }
    }

    /// The distinct continuations of `p` among the held keys: one vector per
    /// held key starting with `p`, holding the bytes after the prefix.
    pub fn suffixes(&self, p: &Vec<u8>) -> (r: Vec<Vec<u8>>)
        requires
            self.wf(),
            p@.len() <= self.key_len(),
        ensures
            forall|j: int| 0 <= j < r@.len() ==> self@.contains(p@ + #[trigger] r@[j]@),
            forall|j: int|
                0 <= j < r@.len() ==> (#[trigger] r@[j]@).len() == self.key_len() - p@.len(),
            forall|k: Seq<u8>|
                self@.contains(k) && p@.is_prefix_of(k) ==> exists|j: int|
                    0 <= j < r@.len() && #[trigger] r@[j]@ == k.skip(p@.len() as int),
            forall|j1: int, j2: int| 0 <= j1 < j2 < r@.len() ==> r@[j1]@ != r@[j2]@,
            forall|j1: int, j2: int| 0 <= j1 < j2 < r@.len() ==> lex_lt(r@[j1]@, r@[j2]@),
            prefixed(self@, p@).finite(),
            r@.len() == prefixed(self@, p@).len(),
    {
        let ghost kl = self.klen as nat;
        proof {
            self.lemma_shape();
        }
        match &self.root {
            None => {
                let r: Vec<Vec<u8>> = Vec::new();
                proof {
                    assert(prefixed(self@, p@) =~= Set::<Seq<u8>>::empty());
                }
                r
            },
            Some(root) => {
                proof {
                    assert(p@.skip(0) =~= p@);
                }
                let d = node_descend(root, p, 0, Ghost(kl));
                match d {
                    None => {
                        let r: Vec<Vec<u8>> = Vec::new();
                        proof {
                            assert forall|k: Seq<u8>| !(#[trigger] prefixed(self@, p@).contains(
                                k,
                            )) by {}
                            assert(prefixed(self@, p@) =~= Set::<Seq<u8>>::empty());
                        }
                        r
                    },
                    Some(m) => {
                        let ghost len2 = (kl - p@.len()) as nat;
                        let r = node_collect(m, Ghost(len2));
                        proof {
                            lemma_node_size_is_len(*m, len2);
                            assert forall|j: int| 0 <= j < r@.len() implies self@.contains(
                                p@ + #[trigger] r@[j]@,
                            ) by {
                                assert(node_has(*m, len2, r@[j]@));
                            }
                            assert forall|j: int| 0 <= j < r@.len() implies (#[trigger] r@[j]@).len()
                                == kl - p@.len() by {
                                lemma_node_key_len(*m, len2, r@[j]@);
                            }
                            assert forall|k: Seq<u8>|
                                self@.contains(k) && p@.is_prefix_of(k) implies exists|j: int|
                                0 <= j < r@.len() && #[trigger] r@[j]@ == k.skip(
                                    p@.len() as int,
                                ) by {
                                let q = k.skip(p@.len() as int);
                                assert(p@ + q =~= k);
                                assert(node_has(*m, len2, q));
                                let j = choose|j: int| 0 <= j < r@.len() && r@[j]@ == q;
                                assert(r@[j]@ == k.skip(p@.len() as int));
                            }
                            // the number of suffixes is the number of prefixed keys
                            let f = |q: Seq<u8>| p@ + q;
                            assert(injective_on(f, node_keys(*m, len2))) by {
                                assert forall|x: Seq<u8>, y: Seq<u8>|
                                    node_keys(*m, len2).contains(x) && node_keys(
                                        *m,
                                        len2,
                                    ).contains(y) && f(x) == f(y) implies x == y by {
                                    assert((p@ + x).skip(p@.len() as int) =~= x);
                                    assert((p@ + y).skip(p@.len() as int) =~= y);
                                }
                            }
                            assert(node_keys(*m, len2).map(f) =~= prefixed(self@, p@)) by {
                                assert forall|k: Seq<u8>| #[trigger] prefixed(self@, p@).contains(
                                    k,
                                ) implies node_keys(*m, len2).map(f).contains(k) by {
                                    let q = k.skip(p@.len() as int);
                                    assert(p@ + q =~= k);
                                    assert(node_has(*m, len2, q));
                                    assert(node_keys(*m, len2).contains(q) && k == f(q));
                                }
                                assert forall|k: Seq<u8>| node_keys(*m, len2).map(f).contains(
                                    k,
                                ) implies #[trigger] prefixed(self@, p@).contains(k) by {
                                    let q = choose|q: Seq<u8>|
                                        node_keys(*m, len2).contains(q) && k == f(q);
                                    assert(node_has(**root, kl, p@ + q));
                                    assert(p@.is_prefix_of(k)) by {
                                        assert((p@ + q).take(p@.len() as int) =~= p@);
                                    }
                                }
                            }
                            lemma_map_size(node_keys(*m, len2), prefixed(self@, p@), f);
                        }
                        r
                    },
                }
            },
        }
    }

    /// Every held key, one vector per key, no duplicates.
    pub fn keys(&self) -> (r: Vec<Vec<u8>>)
        requires
            self.wf(),
        ensures
            forall|j: int| 0 <= j < r@.len() ==> self@.contains(#[trigger] r@[j]@),
            forall|k: Seq<u8>| #[trigger]
                self@.contains(k) ==> exists|j: int| 0 <= j < r@.len() && r@[j]@ == k,
            forall|j1: int, j2: int| 0 <= j1 < j2 < r@.len() ==> r@[j1]@ != r@[j2]@,
            forall|j1: int, j2: int| 0 <= j1 < j2 < r@.len() ==> lex_lt(r@[j1]@, r@[j2]@),
            r@.len() == self@.len(),
    {
        proof {
            self.lemma_shape();
        }
        match &self.root {
            None => {
                let r: Vec<Vec<u8>> = Vec::new();
                proof {
                    assert(self@ =~= Set::<Seq<u8>>::empty());
                }
                r
            },
            Some(root) => {
                proof {
                    lemma_node_size_is_len(**root, self.klen as nat);
                }
                node_collect(root, Ghost(self.klen as nat))
            },
        }
    }

    /// A new trie holding every key of this one and of `other`.
    pub fn union(&self, other: &Trie) -> (r: Trie)
        requires
            self.wf(),
            other.wf(),
            self.key_len() == other.key_len(),
            self@.len() + other@.len() <= usize::MAX,
        ensures
            r.wf(),
            r.key_len() == self.key_len(),
            r@ == self@.union(other@),
    {
        proof {
            self.lemma_shape();
            other.lemma_shape();
        }
        let ks = other.keys();
        let mut cur = Trie { klen: self.klen, root: None };
        let mut scratch = self.insert_noop();
        cur = scratch;
        let mut i: usize = 0;
        while i < ks.len()
            invariant
                i <= ks@.len(),
                cur.wf(),
                cur.key_len() == self.key_len(),
                forall|k: Seq<u8>| #[trigger]
                    cur@.contains(k) <==> self@.contains(k) || exists|j: int|
                        0 <= j < i && ks@[j]@ == k,
                cur@.finite(),
                cur@.len() <= self@.len() + i,
                self.wf(),
                other.wf(),
                self@.finite(),
                other@.finite(),
                self@.len() + other@.len() <= usize::MAX,
                ks@.len() == other@.len(),
                forall|j: int| 0 <= j < ks@.len() ==> other@.contains(#[trigger] ks@[j]@),
                forall|k: Seq<u8>| #[trigger]
                    other@.contains(k) ==> exists|j: int| 0 <= j < ks@.len() && ks@[j]@ == k,
                forall|j: int| 0 <= j < ks@.len() ==> (#[trigger] ks@[j]@).len() == self.key_len(),
            decreases ks@.len() - i,
        {
            let nxt = cur.insert(&ks[i]);
            proof {
                vstd::set_lib::lemma_len_union(cur@, Set::<Seq<u8>>::empty().insert(ks@[i as int]@));
                assert(cur@.insert(ks@[i as int]@) =~= cur@.union(
                    Set::<Seq<u8>>::empty().insert(ks@[i as int]@),
                ));
                assert(Set::<Seq<u8>>::empty().insert(ks@[i as int]@).len() == 1);
            }
            cur = nxt;
            proof {
                assert forall|k: Seq<u8>| #[trigger]
                    cur@.contains(k) <==> self@.contains(k) || exists|j: int|
                        0 <= j < i + 1 && ks@[j]@ == k by {
                    if cur@.contains(k) {
                        if k == ks@[i as int]@ {
                            assert(ks@[i as int]@ == k);
                        }
                    }
                    if exists|j: int| 0 <= j < i + 1 && ks@[j]@ == k {
                        let j = choose|j: int| 0 <= j < i + 1 && ks@[j]@ == k;
                        if j < i {
                            assert(exists|j2: int| 0 <= j2 < i && ks@[j2]@ == k);
                        }
                    }
                }
            }
            i = i + 1;
        }
        proof {
            assert(cur@ =~= self@.union(other@)) by {
                assert forall|k: Seq<u8>| #[trigger] cur@.contains(k) implies self@.contains(k)
                    || other@.contains(k) by {
                    if !self@.contains(k) {
                        let j = choose|j: int| 0 <= j < i && ks@[j]@ == k;
                        assert(other@.contains(ks@[j]@));
                    }
                }
                assert forall|k: Seq<u8>| self@.contains(k) || other@.contains(k) implies #[trigger]
                    cur@.contains(k) by {
                    if other@.contains(k) {
                        let j = choose|j: int| 0 <= j < ks@.len() && ks@[j]@ == k;
                        assert(0 <= j < i && ks@[j]@ == k);
                    }
                }
            }
        }
        cur
    }

    /// An identical copy of this trie.
    fn insert_noop(&self) -> (r: Trie)
        requires
            self.wf(),
        ensures
            r.wf(),
            r.key_len() == self.key_len(),
            r@ == self@,
    {
        match &self.root {
            None => Trie { klen: self.klen, root: None },
            Some(root) => {
                let n = clone_node(root, Ghost(self.klen as nat));
                let r = Trie { klen: self.klen, root: Some(Box::new(n)) };
                proof {
                    assert(r@ =~= self@);
                }
                r
            },
        }
    }
}


/// Remove the suffix of `key` from `at` below `n`; `None` means the node
/// became empty.
#[verifier::loop_isolation(false)]
fn node_remove(n: &Node, key: &Vec<u8>, at: usize) -> (r: Option<Node>)
    requires
        at <= key@.len(),
        node_wf(*n, (key@.len() - at) as nat),
    ensures
        match r {
            Some(m) => node_wf(m, (key@.len() - at) as nat) && node_keys(
                m,
                (key@.len() - at) as nat,
            ) == node_keys(*n, (key@.len() - at) as nat).remove(key@.skip(at as int)),
            None => node_keys(*n, (key@.len() - at) as nat).remove(key@.skip(at as int))
                == Set::<Seq<u8>>::empty(),
        },
    decreases key@.len() - at,
{
    let ghost len = (key@.len() - at) as nat;
    let ghost k = key@.skip(at as int);
    match n {
        Node::Leaf => {
            proof {
                assert(k.len() == 0);
                assert forall|q: Seq<u8>| node_has(*n, len, q) implies q == k by {
                    assert(q =~= k);
                }
                assert(node_keys(*n, len).remove(k) =~= Set::<Seq<u8>>::empty());
            }
            None
        },
        Node::Branch { count, children } => {
            let ghost clen = (len - 1) as nat;
            let ghost ktail = key@.skip(at as int + 1);
            let ghost cs = children@;
            let key_total = key.len();
            let b = key[at];
            proof {
                assert(k.first() == b);
                assert(k.drop_first() =~= ktail);
                lemma_children_wf_each(cs, clen);
            }
            match find_child(children, b) {
                None => {
                    let m = clone_node(n, Ghost(len));
                    proof {
                        assert(!node_has(*n, len, k)) by {
                            if node_has(*n, len, k) {
                                lemma_children_has_char(cs, clen, k);
                                let jj = choose|jj: int|
                                    0 <= jj < cs.len() && cs[jj].0 == k.first() && node_has(
                                        *cs[jj].1,
                                        clen,
                                        k.drop_first(),
                                    );
                                assert(cs[jj].0 == b);
                            }
                        }
                        assert(node_keys(m, len) =~= node_keys(*n, len).remove(k));
                    }
                    Some(m)
                },
                Some(i) => {
                    proof {
                        lemma_child_size_le(cs, clen, i as int);
                    }
                    let sub = node_remove(&children[i].1, key, at + 1);
                    let ghost oldk = node_keys(*cs[i as int].1, clen);
                    let old_c = node_count(&children[i].1, Ghost(clen));
                    match sub {
                        Some(childp) => {
                            let new_c = node_count(&childp, Ghost(clen));
                            proof {
                                lemma_node_size_is_len(*cs[i as int].1, clen);
                                lemma_node_size_is_len(childp, clen);
                                assert(node_keys(childp, clen) == oldk.remove(ktail));
                                if oldk.contains(ktail) {
                                    assert(oldk.remove(ktail).len() == oldk.len() - 1);
                                } else {
                                    assert(oldk.remove(ktail) =~= oldk);
                                }
                            }
                            let boxed = Box::new(childp);
                            let mut cs2: Vec<(u8, Box<Node>)> = Vec::new();
                            let mut j: usize = 0;
                            while j < children.len()
                                invariant
                                    j <= cs.len(),
                                    cs2@.len() == j,
                                    forall|jj: int|
                                        0 <= jj < j && jj != i ==> copies(
                                            #[trigger] cs2@[jj],
                                            cs[jj],
                                            clen,
                                        ),
                                    j > i ==> cs2@[i as int].0 == b && node_wf(
                                        *cs2@[i as int].1,
                                        clen,
                                    ) && node_keys(*cs2@[i as int].1, clen) == node_keys(
                                        *boxed,
                                        clen,
                                    ) && node_size(*cs2@[i as int].1, clen) == node_size(
                                        *boxed,
                                        clen,
                                    ),
                                decreases cs.len() - j,
                            {
                                if j == i {
                                    let c = clone_node(&boxed, Ghost(clen));
                                    cs2.push((b, Box::new(c)));
                                } else {
                                    let c = clone_node(&children[j].1, Ghost(clen));
                                    cs2.push((children[j].0, Box::new(c)));
                                }
                                j = j + 1;
                            }
                            let r_count = count - (old_c - new_c);
                            let m = Node::Branch { count: r_count, children: cs2 };
                            proof {
                                let t = cs2@;
                                let newk = node_keys(*boxed, clen);
                                assert(newk == oldk.remove(ktail));
                                assert(forall|jj: int| 0 <= jj < cs.len() ==> t[jj].0 == cs[jj].0);
                                assert(children_sorted(t));
                                assert forall|jj: int| 0 <= jj < t.len() implies node_wf(
                                    #[trigger] (*t[jj].1),
                                    clen,
                                ) by {
                                    if jj != i {
                                        assert(copies(t[jj], cs[jj], clen));
                                    }
                                }
                                lemma_children_wf_from_each(t, clen);
                                assert forall|q: Seq<u8>| children_has(t, clen, q) implies
                                    children_has(cs, clen, q) && q != k by {
                                    lemma_children_has_char(t, clen, q);
                                    lemma_children_has_char(cs, clen, q);
                                    let jj = choose|jj: int|
                                        0 <= jj < t.len() && t[jj].0 == q.first() && node_has(
                                            *t[jj].1,
                                            clen,
                                            q.drop_first(),
                                        );
                                    if jj == i {
                                        assert(node_keys(*t[i as int].1, clen).contains(
                                            q.drop_first(),
                                        ));
                                        assert(newk.contains(q.drop_first()));
                                        assert(oldk.contains(q.drop_first()));
                                        assert(q.drop_first() != ktail);
                                        assert(node_has(*cs[i as int].1, clen, q.drop_first()));
                                        if q == k {
                                            assert(q.drop_first() == ktail);
                                        }
                                    } else {
                                        assert(copies(t[jj], cs[jj], clen));
                                        assert(node_keys(*cs[jj].1, clen).contains(q.drop_first()));
                                        if q == k {
                                            lemma_sorted_unique(cs, jj, i as int);
                                        }
                                    }
                                }
                                assert forall|q: Seq<u8>| children_has(cs, clen, q) && q != k
                                    implies children_has(t, clen, q) by {
                                    lemma_children_has_char(t, clen, q);
                                    lemma_children_has_char(cs, clen, q);
                                    let jj = choose|jj: int|
                                        0 <= jj < cs.len() && cs[jj].0 == q.first() && node_has(
                                            *cs[jj].1,
                                            clen,
                                            q.drop_first(),
                                        );
                                    if jj == i {
                                        assert(oldk.contains(q.drop_first()));
                                        assert(q.drop_first() != ktail) by {
                                            if q.drop_first() == ktail {
                                                assert(q.first() == cs[i as int].0);
                                                assert(k.first() == b);
                                                assert(k.drop_first() =~= ktail);
                                                lemma_first_rest(q, k);
                                            }
                                        }
                                        assert(newk.contains(q.drop_first()));
                                        assert(t[i as int].0 == q.first());
                                        assert(node_has(*t[i as int].1, clen, q.drop_first()));
                                    } else {
                                        assert(copies(t[jj], cs[jj], clen));
                                        assert(node_keys(*t[jj].1, clen).contains(q.drop_first()));
                                    }
                                }
                                assert(children_keys(t, clen) =~= children_keys(cs, clen).remove(k));
                                assert forall|q: Seq<u8>| node_has(m, len, q) <==> (node_has(
                                    *n,
                                    len,
                                    q,
                                ) && q != k) by {
                                    assert(node_has(m, len, q) == children_keys(t, clen).contains(
                                        q,
                                    ));
                                    assert(node_has(*n, len, q) == children_keys(
                                        cs,
                                        clen,
                                    ).contains(q));
                                }
                                assert(node_keys(m, len) =~= node_keys(*n, len).remove(k));
                                lemma_children_size_is_len(t, clen);
                                lemma_children_size_is_len(cs, clen);
                                if oldk.contains(ktail) {
                                    assert(children_keys(cs, clen).contains(k)) by {
                                        assert(k.len() == clen + 1);
                                        assert(cs[i as int].0 == k.first());
                                        assert(node_has(*cs[i as int].1, clen, k.drop_first()));
                                        lemma_children_has_char(cs, clen, k);
                                    }
                                    assert(children_keys(t, clen).len() == children_keys(
                                        cs,
                                        clen,
                                    ).len() - 1);
                                } else {
                                    assert(!children_keys(cs, clen).contains(k)) by {
                                        if children_has(cs, clen, k) {
                                            lemma_children_has_char(cs, clen, k);
                                            let jj = choose|jj: int|
                                                0 <= jj < cs.len() && cs[jj].0 == k.first()
                                                    && node_has(*cs[jj].1, clen, k.drop_first());
                                            lemma_sorted_unique(cs, jj, i as int);
                                        }
                                    }
                                    assert(children_keys(t, clen) =~= children_keys(cs, clen));
                                }
                                assert(node_wf(m, len));
                            }
                            Some(m)
                        },
                        None => {
                            proof {
                                assert(oldk.remove(ktail) == Set::<Seq<u8>>::empty());
                                assert forall|q: Seq<u8>| oldk.contains(q) implies q == ktail by {
                                    if q != ktail {
                                        assert(oldk.remove(ktail).contains(q));
                                    }
                                }
                                lemma_node_some_key(*cs[i as int].1, clen);
                                assert(oldk.contains(ktail)) by {
                                    let w = choose|w: Seq<u8>| #[trigger] node_keys(
                                        *cs[i as int].1,
                                        clen,
                                    ).contains(w);
                                    assert(w == ktail);
                                }
                            }
                            if children.len() == 1 {
                                proof {
                                    assert forall|q: Seq<u8>| children_has(cs, clen, q) implies q
                                        == k by {
                                        lemma_children_has_char(cs, clen, q);
                                        let jj = choose|jj: int|
                                            0 <= jj < cs.len() && cs[jj].0 == q.first()
                                                && node_has(*cs[jj].1, clen, q.drop_first());
                                        assert(jj == i);
                                        assert(oldk.contains(q.drop_first()));
                                        assert(q.drop_first() == ktail);
                                        assert(q.first() == b);
                                        assert(k.first() == b);
                                        assert(k.drop_first() =~= ktail);
                                        lemma_first_rest(q, k);
                                    }
                                    assert forall|q: Seq<u8>|
                                        !node_keys(*n, len).remove(k).contains(q) by {
                                        if node_has(*n, len, q) {
                                            assert(children_has(cs, clen, q));
                                        }
                                    }
                                    assert(node_keys(*n, len).remove(k) =~= Set::<Seq<
                                        u8,
                                    >>::empty());
                                }
                                None
                            } else {
                                let mut cs2: Vec<(u8, Box<Node>)> = Vec::new();
                                let mut j: usize = 0;
                                while j < children.len()
                                    invariant
                                        j <= cs.len(),
                                        j <= i ==> cs2@.len() == j,
                                        j > i ==> cs2@.len() == j - 1,
                                        forall|jj: int|
                                            0 <= jj < j && jj < i ==> copies(
                                                #[trigger] cs2@[jj],
                                                cs[jj],
                                                clen,
                                            ),
                                        forall|jj: int|
                                            i <= jj < cs2@.len() ==> copies(
                                                #[trigger] cs2@[jj],
                                                cs[jj + 1],
                                                clen,
                                            ),
                                    decreases cs.len() - j,
                                {
                                    if j != i {
                                        let c = clone_node(&children[j].1, Ghost(clen));
                                        cs2.push((children[j].0, Box::new(c)));
                                    }
                                    j = j + 1;
                                }
                                let r_count = count - old_c;
                                let m = Node::Branch { count: r_count, children: cs2 };
                                proof {
                                    let t = cs2@;
                                    assert(t.len() == cs.len() - 1);
                                    assert(children_sorted(t)) by {
                                        assert forall|x: int, y: int|
                                            0 <= x < y < t.len() implies (t[x].0 < t[y].0) by {
                                            if x < i && y < i {
                                                assert(copies(t[x], cs[x], clen));
                                                assert(copies(t[y], cs[y], clen));
                                            } else if x < i {
                                                assert(copies(t[x], cs[x], clen));
                                                assert(copies(t[y], cs[y + 1], clen));
                                            } else {
                                                assert(copies(t[x], cs[x + 1], clen));
                                                assert(copies(t[y], cs[y + 1], clen));
                                            }
                                        }
                                    }
                                    assert forall|jj: int| 0 <= jj < t.len() implies node_wf(
                                        #[trigger] (*t[jj].1),
                                        clen,
                                    ) by {
                                        if jj < i {
                                            assert(copies(t[jj], cs[jj], clen));
                                        } else {
                                            assert(copies(t[jj], cs[jj + 1], clen));
                                        }
                                    }
                                    lemma_children_wf_from_each(t, clen);
                                    assert forall|q: Seq<u8>| children_has(t, clen, q) implies
                                        children_has(cs, clen, q) && q != k by {
                                        lemma_children_has_char(t, clen, q);
                                        lemma_children_has_char(cs, clen, q);
                                        let jj = choose|jj: int|
                                            0 <= jj < t.len() && t[jj].0 == q.first() && node_has(
                                                *t[jj].1,
                                                clen,
                                                q.drop_first(),
                                            );
                                        if jj < i {
                                            assert(copies(t[jj], cs[jj], clen));
                                            assert(node_keys(*cs[jj].1, clen).contains(
                                                q.drop_first(),
                                            ));
                                            assert(cs[jj].0 == q.first());
                                            if q == k {
                                                lemma_sorted_unique(cs, jj, i as int);
                                            }
                                        } else {
                                            assert(copies(t[jj], cs[jj + 1], clen));
                                            assert(node_keys(*cs[jj + 1].1, clen).contains(
                                                q.drop_first(),
                                            ));
                                            assert(cs[jj + 1].0 == q.first());
                                            if q == k {
                                                lemma_sorted_unique(cs, jj + 1, i as int);
                                            }
                                        }
                                    }
                                    assert forall|q: Seq<u8>| children_has(cs, clen, q) && q != k
                                        implies children_has(t, clen, q) by {
                                        lemma_children_has_char(t, clen, q);
                                        lemma_children_has_char(cs, clen, q);
                                        let jj = choose|jj: int|
                                            0 <= jj < cs.len() && cs[jj].0 == q.first()
                                                && node_has(*cs[jj].1, clen, q.drop_first());
                                        if jj == i {
                                            assert(oldk.contains(q.drop_first()));
                                            assert(q.drop_first() == ktail);
                                            assert(q.first() == b);
                                            assert(k.first() == b);
                                            assert(k.drop_first() =~= ktail);
                                            lemma_first_rest(q, k);
                                        } else if jj < i {
                                            assert(copies(t[jj], cs[jj], clen));
                                            assert(node_keys(*t[jj].1, clen).contains(
                                                q.drop_first(),
                                            ));
                                            assert(t[jj].0 == q.first());
                                        } else {
                                            assert(copies(t[jj - 1], cs[jj], clen));
                                            assert(node_keys(*t[jj - 1].1, clen).contains(
                                                q.drop_first(),
                                            ));
                                            assert(t[jj - 1].0 == q.first());
                                        }
                                    }
                                    assert(children_keys(t, clen) =~= children_keys(
                                        cs,
                                        clen,
                                    ).remove(k));
                                    assert forall|q: Seq<u8>| node_has(m, len, q) <==> (node_has(
                                        *n,
                                        len,
                                        q,
                                    ) && q != k) by {
                                        assert(node_has(m, len, q) == children_keys(
                                            t,
                                            clen,
                                        ).contains(q));
                                        assert(node_has(*n, len, q) == children_keys(
                                            cs,
                                            clen,
                                        ).contains(q));
                                    }
                                    assert(node_keys(m, len) =~= node_keys(*n, len).remove(k));
                                    lemma_children_size_is_len(t, clen);
                                    lemma_children_size_is_len(cs, clen);
                                    lemma_node_size_is_len(*cs[i as int].1, clen);
                                    assert(children_keys(t, clen).len() == children_keys(
                                        cs,
                                        clen,
                                    ).len() - oldk.len()) by {
                                        assert(children_keys(cs, clen).contains(k)) by {
                                            assert(k.len() == clen + 1);
                                            assert(cs[i as int].0 == k.first());
                                            assert(oldk.contains(k.drop_first()));
                                            lemma_children_has_char(cs, clen, k);
                                        }
                                        assert(oldk.len() == 1) by {
                                            assert(oldk =~= Set::<Seq<u8>>::empty().insert(ktail));
                                        }
                                    }
                                    assert(node_wf(m, len));
                                }
                                Some(m)
                            }
                        },
                    }
                },
            }
        },
    }
}

impl Trie {
    /// A new trie holding everything this one holds, except `key`.  Removing
    /// an absent key yields an identical trie.
    pub fn remove(&self, key: &Vec<u8>) -> (r: Trie)
        requires
            self.wf(),
            key@.len() == self.key_len(),
        ensures
            r.wf(),
            r.key_len() == self.key_len(),
            r@ == self@.remove(key@),
    {
        proof {
            assert(key@.skip(0) =~= key@);
        }
        match &self.root {
            None => {
                let r = Trie { klen: self.klen, root: None };
                proof {
                    assert(r@ =~= self@.remove(key@));
                }
                r
            },
            Some(root) => {
                match node_remove(root, key, 0) {
                    Some(m) => {
                        let r = Trie { klen: self.klen, root: Some(Box::new(m)) };
                        proof {
                            assert(r@ =~= self@.remove(key@));
                        }
                        r
                    },
                    None => {
                        let r = Trie { klen: self.klen, root: None };
                        proof {
                            assert(r@ =~= self@.remove(key@));
                        }
                        r
                    },
                }
            },
        }
    }
}


/// Union of key sets is commutative: merging two tries either way round
/// yields the same key set.
pub proof fn lemma_union_commutative(a: &Trie, b: &Trie, u1: &Trie, u2: &Trie)
    requires
        u1@ == a@.union(b@),
        u2@ == b@.union(a@),
    ensures
        u1@ == u2@,
{
    assert(u1@ =~= u2@);
}

/// Union of key sets is idempotent: merging a trie with itself changes
/// nothing.
pub proof fn lemma_union_idempotent(a: &Trie, u: &Trie)
    requires
        u@ == a@.union(a@),
    ensures
        u@ == a@,
{
    assert(u@ =~= a@);
}

/// Insertion order independence: tries built by inserting the same keys
/// in any two orders hold the same key set.
pub proof fn lemma_insert_order_independent(ks1: Seq<Seq<u8>>, ks2: Seq<Seq<u8>>, t1: &Trie, t2: &Trie)
    requires
        ks1.to_multiset() == ks2.to_multiset(),
        t1@ == ks1.to_set(),
        t2@ == ks2.to_set(),
    ensures
        t1@ == t2@,
{
    broadcast use vstd::seq_lib::group_to_multiset_ensures;

    assert forall|k: Seq<u8>| ks1.contains(k) == ks2.contains(k) by {
        assert(ks1.contains(k) <==> ks1.to_multiset().count(k) > 0);
        assert(ks2.contains(k) <==> ks2.to_multiset().count(k) > 0);
    }
    assert(t1@ =~= t2@);
}

impl Trie {
    /// A new trie holding everything this one holds, plus every listed key.
    pub fn insert_all(&self, keys: &Vec<Vec<u8>>) -> (r: Trie)
        requires
            self.wf(),
            forall|j: int| 0 <= j < keys@.len() ==> (#[trigger] keys@[j])@.len() == self.key_len(),
            self@.len() + keys@.len() <= usize::MAX,
        ensures
            r.wf(),
            r.key_len() == self.key_len(),
            r@ == self@.union(keys@.map_values(|k: Vec<u8>| k@).to_set()),
    {
        proof {
            self.lemma_shape();
        }
        let mut cur = self.insert_noop();
        let mut i: usize = 0;
        while i < keys.len()
            invariant
                i <= keys@.len(),
                cur.wf(),
                cur.key_len() == self.key_len(),
                self.wf(),
                self@.finite(),
                self@.len() + keys@.len() <= usize::MAX,
                forall|j: int|
                    0 <= j < keys@.len() ==> (#[trigger] keys@[j])@.len() == self.key_len(),
                forall|k: Seq<u8>| #[trigger]
                    cur@.contains(k) <==> self@.contains(k) || exists|j: int|
                        0 <= j < i && keys@[j]@ == k,
                cur@.finite(),
                cur@.len() <= self@.len() + i,
            decreases keys@.len() - i,
        {
            let nxt = cur.insert(&keys[i]);
            proof {
                vstd::set_lib::lemma_len_union(
                    cur@,
                    Set::<Seq<u8>>::empty().insert(keys@[i as int]@),
                );
                assert(cur@.insert(keys@[i as int]@) =~= cur@.union(
                    Set::<Seq<u8>>::empty().insert(keys@[i as int]@),
                ));
                assert(Set::<Seq<u8>>::empty().insert(keys@[i as int]@).len() == 1);
            }
            cur = nxt;
            proof {
                assert forall|k: Seq<u8>| #[trigger]
                    cur@.contains(k) <==> self@.contains(k) || exists|j: int|
                        0 <= j < i + 1 && keys@[j]@ == k by {
                    if cur@.contains(k) {
                        if k == keys@[i as int]@ {
                            assert(keys@[i as int]@ == k);
                        }
                    }
                    if exists|j: int| 0 <= j < i + 1 && keys@[j]@ == k {
                        let j = choose|j: int| 0 <= j < i + 1 && keys@[j]@ == k;
                        if j < i {
                            assert(exists|j2: int| 0 <= j2 < i && keys@[j2]@ == k);
                        }
                    }
                }
            }
            i = i + 1;
        }
        proof {
            let ksview = keys@.map_values(|k: Vec<u8>| k@);
            assert(cur@ =~= self@.union(ksview.to_set())) by {
                assert forall|k: Seq<u8>| ksview.to_set().contains(k) <==> exists|j: int|
                    0 <= j < keys@.len() && (#[trigger] keys@[j])@ == k by {
                    if ksview.to_set().contains(k) {
                        assert(ksview.contains(k));
                        let j = choose|j: int| 0 <= j < ksview.len() && ksview[j] == k;
                        assert(keys@[j]@ == k);
                    }
                    if exists|j: int| 0 <= j < keys@.len() && (#[trigger] keys@[j])@ == k {
                        let j = choose|j: int| 0 <= j < keys@.len() && (#[trigger] keys@[j])@ == k;
                        assert(ksview[j] == k);
                        assert(ksview.contains(k));
                    }
                }
            }
        }
        cur
    }
}


/// A cursor over a trie: a stack of nodes along the current path, the
/// root at the bottom, so that stepping in either direction is cheap.
pub struct TrieCursor<'a> {
    trie: &'a Trie,
    path: Vec<u8>,
    stack: Vec<&'a Node>,
}

impl Trie {
    /// A cursor over this trie, at the empty path.
    pub fn cursor<'a>(&'a self) -> (r: TrieCursor<'a>)
        requires
            self.wf(),
            self.key_len() <= 0xffff_ffff,
        ensures
            r.inv(),
            r.keys() == self@,
            r.klen() == self.key_len(),
            r.path() == Seq::<u8>::empty(),
    {
        let mut stack: Vec<&Node> = Vec::new();
        match &self.root {
            None => {},
            Some(n) => {
                stack.push(n);
            },
        }
        let r = TrieCursor { trie: self, path: Vec::new(), stack };
        proof {
            if self.root is Some {
                assert forall|i: int, q: Seq<u8>|
                    0 <= i < r.stack@.len() implies (#[trigger] node_has(
                    *r.stack@[i],
                    (r.trie.key_len() - i) as nat,
                    q,
                )) == r.trie@.contains(r.path@.take(i) + q) by {
                    assert(r.path@.take(0) + q =~= q);
                }
            }
        }
        r
    }
}

impl<'a> TrieCursor<'a> {
    /// The node the path leads to, when the trie is not empty.
    spec fn top(&self) -> &'a Node {
        self.stack@.last()
    }
}

impl<'a> ByteCursor for TrieCursor<'a> {
    closed spec fn inv(&self) -> bool {
        &&& self.trie.wf()
        &&& self.trie.key_len() <= 0xffff_ffff
        &&& self.path@.len() <= self.trie.key_len()
        &&& match self.trie.root {
            Option::None => self.stack@.len() == 0 && self.path@.len() == 0,
            Option::Some(root) => {
                &&& self.stack@.len() == self.path@.len() + 1
                &&& forall|i: int|
                    0 <= i < self.stack@.len() ==> node_wf(
                        *(#[trigger] self.stack@[i]),
                        (self.trie.key_len() - i) as nat,
                    )
                &&& forall|i: int, q: Seq<u8>|
                    0 <= i < self.stack@.len() ==> (#[trigger] node_has(
                        *self.stack@[i],
                        (self.trie.key_len() - i) as nat,
                        q,
                    )) == self.trie@.contains(self.path@.take(i) + q)
            },
        }
    }

    closed spec fn keys(&self) -> Set<Seq<u8>> {
        self.trie@
    }

    closed spec fn klen(&self) -> nat {
        self.trie.key_len()
    }

    closed spec fn path(&self) -> Seq<u8> {
        self.path@
    }

    proof fn lemma_cursor_shape(&self) {
        self.trie.lemma_shape();
    }

    fn peek(&self) -> (r: Option<u8>) {
        if self.stack.len() == 0 {
            return None;
        }
        let top = self.stack[self.stack.len() - 1];
        let ghost rem = (self.trie.key_len() - self.path@.len()) as nat;
        match top {
            Node::Leaf => {
                proof {
                    assert(false);
                }
                None
            },
            Node::Branch { count, children } => {
                if children.len() == 1 {
                    let b = children[0].0;
                    proof {
                        let i = self.stack@.len() - 1;
                        assert forall|k: Seq<u8>| #[trigger]
                            self.keys().contains(k) && self.path@.is_prefix_of(k) implies
                            k[self.path@.len() as int] == b by {
                            let q = k.skip(self.path@.len() as int);
                            assert(self.path@.take(i) =~= self.path@);
                            assert(self.path@ + q =~= k);
                            assert(node_has(*self.stack@[i], rem, q));
                            lemma_children_has_char(children@, (rem - 1) as nat, q);
                            let jj = choose|jj: int|
                                0 <= jj < children@.len() && children@[jj].0 == q.first()
                                    && node_has(*children@[jj].1, (rem - 1) as nat, q.drop_first());
                            assert(jj == 0);
                            assert(q.first() == k[self.path@.len() as int]);
                        }
                    }
                    Some(b)
                } else {
                    None
                }
            },
        }
    }

    fn propose(&self) -> (r: ByteBitset) {
        let mut bits = ByteBitset::new_empty();
        if self.stack.len() == 0 {
            proof {
                assert(self.trie@ =~= Set::<Seq<u8>>::empty());
            }
            return bits;
        }
        let top = self.stack[self.stack.len() - 1];
        let ghost rem = (self.trie.key_len() - self.path@.len()) as nat;
        let ghost i = self.stack@.len() - 1;
        match top {
            Node::Leaf => {
                proof {
                    assert(false);
                }
                bits
            },
            Node::Branch { count, children } => {
                proof {
                    lemma_children_wf_each(children@, (rem - 1) as nat);
                }
                let mut j: usize = 0;
                while j < children.len()
                    invariant
                        j <= children@.len(),
                        bits.inv(),
                        forall|x: u8|
                            bits.mem(x) <==> exists|t: int|
                                0 <= t < j && (#[trigger] children@[t]).0 == x,
                    decreases children@.len() - j,
                {
                    let b = children[j].0;
                    bits.set(b);
                    proof {
                        assert forall|x: u8|
                            bits.mem(x) <==> exists|t: int|
                                0 <= t < j + 1 && (#[trigger] children@[t]).0 == x by {
                            if bits.mem(x) {
                                if x == b {
                                    assert(children@[j as int].0 == x);
                                } else {
                                    let t = choose|t: int|
                                        0 <= t < j && (#[trigger] children@[t]).0 == x;
                                }
                            }
                            if exists|t: int| 0 <= t < j + 1 && (#[trigger] children@[t]).0 == x {
                                let t = choose|t: int|
                                    0 <= t < j + 1 && (#[trigger] children@[t]).0 == x;
                                if t < j {
                                    assert(exists|t2: int|
                                        0 <= t2 < j && (#[trigger] children@[t2]).0 == x);
                                }
                            }
                        }
                    }
                    j = j + 1;
                }
                proof {
                    assert forall|b: u8|
                        bits.mem(b) <==> exists|k: Seq<u8>| #[trigger]
                            self.keys().contains(k) && self.path().push(b).is_prefix_of(k) by {
                        assert(self.path@.take(i) =~= self.path@);
                        if bits.mem(b) {
                            let t = choose|t: int|
                                0 <= t < children@.len() && (#[trigger] children@[t]).0 == b;
                            lemma_node_some_key(*children@[t].1, (rem - 1) as nat);
                            let qt = choose|qt: Seq<u8>| #[trigger] node_keys(
                                *children@[t].1,
                                (rem - 1) as nat,
                            ).contains(qt);
                            lemma_node_key_len(*children@[t].1, (rem - 1) as nat, qt);
                            let q = seq![b] + qt;
                            assert(q.first() == b);
                            assert(q.drop_first() =~= qt);
                            lemma_children_has_char(children@, (rem - 1) as nat, q);
                            assert(node_has(*self.stack@[i], rem, q));
                            let k = self.path@ + q;
                            assert(self.keys().contains(k));
                            assert(self.path().push(b).is_prefix_of(k)) by {
                                assert(k.take(self.path@.len() as int + 1) =~= self.path@.push(b));
                            }
                        }
                        if exists|k: Seq<u8>| #[trigger]
                            self.keys().contains(k) && self.path().push(b).is_prefix_of(k) {
                            let k = choose|k: Seq<u8>| #[trigger]
                                self.keys().contains(k) && self.path().push(b).is_prefix_of(k);
                            let q = k.skip(self.path@.len() as int);
                            assert(self.path@.push(b) == k.take(self.path@.len() as int + 1));
                            assert(k[self.path@.len() as int] == b) by {
                                assert(k.take(self.path@.len() as int + 1)[self.path@.len() as int]
                                    == k[self.path@.len() as int]);
                                assert(self.path@.push(b)[self.path@.len() as int] == b);
                            }
                            assert forall|t: int|
                                0 <= t < self.path@.len() implies self.path@[t] == k[t] by {
                                assert(self.path@.push(b)[t] == self.path@[t]);
                                assert(k.take(self.path@.len() as int + 1)[t] == k[t]);
                            }
                            assert(self.path@ + q =~= k);
                            assert(node_has(*self.stack@[i], rem, q));
                            lemma_children_has_char(children@, (rem - 1) as nat, q);
                            let jj = choose|jj: int|
                                0 <= jj < children@.len() && children@[jj].0 == q.first()
                                    && node_has(*children@[jj].1, (rem - 1) as nat, q.drop_first());
                            assert(q.first() == k[self.path@.len() as int]);
                            assert(children@[jj].0 == b);
                        }
                    }
                }
                bits
            },
        }
    }

    fn push(&mut self, b: u8) {
        let ghost rem = (self.trie.key_len() - self.path@.len()) as nat;
        let ghost i = self.stack@.len() - 1;
        proof {
            if self.stack@.len() == 0 {
                assert(self.trie@ =~= Set::<Seq<u8>>::empty());
                let k = choose|k: Seq<u8>| #[trigger]
                    self.keys().contains(k) && self.path().push(b).is_prefix_of(k);
                assert(false);
            }
        }
        let top = self.stack[self.stack.len() - 1];
        match top {
            Node::Leaf => {
                proof {
                    assert(false);
                }
            },
            Node::Branch { count, children } => {
                proof {
                    lemma_children_wf_each(children@, (rem - 1) as nat);
                    let k = choose|k: Seq<u8>| #[trigger]
                        self.keys().contains(k) && self.path().push(b).is_prefix_of(k);
                    let q = k.skip(self.path@.len() as int);
                    assert(self.path@.take(i) =~= self.path@);
                    assert(self.path@.push(b) == k.take(self.path@.len() as int + 1));
                    assert(k[self.path@.len() as int] == b) by {
                        assert(k.take(self.path@.len() as int + 1)[self.path@.len() as int]
                            == k[self.path@.len() as int]);
                        assert(self.path@.push(b)[self.path@.len() as int] == b);
                    }
                    assert forall|t: int| 0 <= t < self.path@.len() implies self.path@[t]
                        == k[t] by {
                        assert(self.path@.push(b)[t] == self.path@[t]);
                        assert(k.take(self.path@.len() as int + 1)[t] == k[t]);
                    }
                    assert(self.path@ + q =~= k);
                    assert(node_has(*self.stack@[i], rem, q));
                    lemma_children_has_char(children@, (rem - 1) as nat, q);
                    let jj = choose|jj: int|
                        0 <= jj < children@.len() && children@[jj].0 == q.first() && node_has(
                            *children@[jj].1,
                            (rem - 1) as nat,
                            q.drop_first(),
                        );
                    assert(q.first() == k[self.path@.len() as int]);
                    assert(children@[jj].0 == b);
                }
                match find_child(children, b) {
                    Some(ci) => {
                        let child: &Node = &children[ci].1;
                        self.stack.push(child);
                        self.path.push(b);
                        proof {
                            let kl = self.trie.key_len();
                            let p1 = self.path@;
                            assert(p1 == old(self).path@.push(b));
                            assert forall|lvl: int, q: Seq<u8>|
                                0 <= lvl < self.stack@.len() implies (#[trigger] node_has(
                                *self.stack@[lvl],
                                (kl - lvl) as nat,
                                q,
                            )) == self.trie@.contains(p1.take(lvl) + q) by {
                                if lvl < self.stack@.len() - 1 {
                                    assert(self.stack@[lvl] == old(self).stack@[lvl]);
                                    assert(p1.take(lvl) =~= old(self).path@.take(lvl));
                                } else {
                                    // the new top: go through its parent
                                    let par = old(self).stack@[i];
                                    assert(node_wf(*par, rem));
                                    lemma_children_has_char(
                                        children@,
                                        (rem - 1) as nat,
                                        seq![b] + q,
                                    );
                                    assert((seq![b] + q).first() == b);
                                    assert((seq![b] + q).drop_first() =~= q);
                                    if node_has(*self.stack@[lvl], (kl - lvl) as nat, q) {
                                        lemma_node_key_len(
                                            *self.stack@[lvl],
                                            (kl - lvl) as nat,
                                            q,
                                        );
                                        assert(node_has(*par, rem, seq![b] + q));
                                        assert(self.trie@.contains(
                                            old(self).path@.take(i) + (seq![b] + q),
                                        ));
                                        assert(old(self).path@.take(i) + (seq![b] + q) =~= p1.take(
                                            lvl,
                                        ) + q);
                                    }
                                    if self.trie@.contains(p1.take(lvl) + q) {
                                        assert(old(self).path@.take(i) + (seq![b] + q) =~= p1.take(
                                            lvl,
                                        ) + q);
                                        assert(node_has(*par, rem, seq![b] + q));
                                        let jj2 = choose|jj2: int|
                                            0 <= jj2 < children@.len() && children@[jj2].0 == (
                                            seq![b] + q).first() && node_has(
                                                *children@[jj2].1,
                                                (rem - 1) as nat,
                                                (seq![b] + q).drop_first(),
                                            );
                                        lemma_sorted_unique(children@, jj2, ci as int);
                                    }
                                }
                            }
                        }
                    },
                    None => {
                        proof {
                            assert(false);
                        }
                    },
                }
            },
        }
    }

    fn pop(&mut self) {
        proof {
            if self.stack@.len() == 0 {
                assert(false);
            }
        }
        let _ = self.stack.pop();
        let _ = self.path.pop();
        proof {
            let kl = self.trie.key_len();
            let p1 = self.path@;
            assert(p1 =~= old(self).path@.drop_last());
            if self.trie.root is Some {
                assert forall|lvl: int, q: Seq<u8>|
                    0 <= lvl < self.stack@.len() implies (#[trigger] node_has(
                    *self.stack@[lvl],
                    (kl - lvl) as nat,
                    q,
                )) == self.trie@.contains(p1.take(lvl) + q) by {
                    assert(self.stack@[lvl] == old(self).stack@[lvl]);
                    assert(p1.take(lvl) =~= old(self).path@.take(lvl));
                }
            }
        }
    }

    fn segment_count(&self) -> (r: u32) {
        let kl = self.trie.klen();
        let d = kl - self.path.len();
        d as u32
    }
}


/// Structural equality of two well-formed nodes decides key-set
/// equality: the trie is a canonical form of its key set.
#[verifier::loop_isolation(false)]
fn node_eq(a: &Node, b: &Node, Ghost(len): Ghost<nat>) -> (r: bool)
    requires
        node_wf(*a, len),
        node_wf(*b, len),
    ensures
        r == (node_keys(*a, len) == node_keys(*b, len)),
    decreases len, 0nat,
{
    match (a, b) {
        (Node::Leaf, Node::Leaf) => {
            proof {
                assert(node_keys(*a, len) =~= node_keys(*b, len));
            }
            true
        },
        (Node::Branch { count: ca, children: csa }, Node::Branch { count: cb, children: csb }) => {
            let ghost clen = (len - 1) as nat;
            proof {
                lemma_children_wf_each(csa@, clen);
                lemma_children_wf_each(csb@, clen);
            }
            let mut i: usize = 0;
            loop
                invariant
                    i <= csa@.len(),
                    i <= csb@.len(),
                    forall|j: int|
                        0 <= j < i ==> (#[trigger] csa@[j]).0 == csb@[j].0 && node_keys(
                            *csa@[j].1,
                            clen,
                        ) == node_keys(*csb@[j].1, clen),
                decreases csa@.len() - i,
            {
                if i >= csa.len() && i >= csb.len() {
                    proof {
                        assert forall|q: Seq<u8>|
                            #![trigger children_has(csa@, clen, q)]
                            #![trigger children_has(csb@, clen, q)]
                            children_has(csa@, clen, q) == children_has(csb@, clen, q) by {
                            lemma_children_has_char(csa@, clen, q);
                            lemma_children_has_char(csb@, clen, q);
                            if children_has(csa@, clen, q) {
                                let jj = choose|jj: int|
                                    0 <= jj < csa@.len() && csa@[jj].0 == q.first() && node_has(
                                        *csa@[jj].1,
                                        clen,
                                        q.drop_first(),
                                    );
                                assert(node_keys(*csa@[jj].1, clen).contains(q.drop_first()));
                                assert(node_keys(*csb@[jj].1, clen).contains(q.drop_first()));
                                assert(csb@[jj].0 == q.first());
                                assert(node_has(*csb@[jj].1, clen, q.drop_first()));
                                assert(children_has(csb@, clen, q));
                            }
                            if children_has(csb@, clen, q) {
                                let jj = choose|jj: int|
                                    0 <= jj < csb@.len() && csb@[jj].0 == q.first() && node_has(
                                        *csb@[jj].1,
                                        clen,
                                        q.drop_first(),
                                    );
                                assert(node_keys(*csb@[jj].1, clen).contains(q.drop_first()));
                                assert(node_keys(*csa@[jj].1, clen).contains(q.drop_first()));
                                assert(csa@[jj].0 == q.first());
                                assert(node_has(*csa@[jj].1, clen, q.drop_first()));
                                assert(children_has(csa@, clen, q));
                            }
                        }
                        assert forall|k: Seq<u8>|
                            #![trigger node_has(*a, len, k)]
                            #![trigger node_has(*b, len, k)]
                            node_has(*a, len, k) == node_has(*b, len, k) by {
                            assert(node_has(*a, len, k) == children_has(csa@, clen, k));
                            assert(node_has(*b, len, k) == children_has(csb@, clen, k));
                        }
                        assert(node_keys(*a, len) =~= node_keys(*b, len));
                    }
                    return true;
                }
                if i >= csa.len() || i >= csb.len() {
                    // one side has an extra entry whose byte the other
                    // side cannot carry
                    proof {
                        if i >= csa@.len() {
                            let bb = csb@[i as int].0;
                            lemma_node_some_key(*csb@[i as int].1, clen);
                            let qt = choose|qt: Seq<u8>| #[trigger] node_keys(
                                *csb@[i as int].1,
                                clen,
                            ).contains(qt);
                            lemma_node_key_len(*csb@[i as int].1, clen, qt);
                            let k = seq![bb] + qt;
                            assert(k.first() == bb);
                            assert(k.drop_first() =~= qt);
                            lemma_children_has_char(csb@, clen, k);
                            assert(children_has(csb@, clen, k));
                            assert(!children_has(csa@, clen, k)) by {
                                if children_has(csa@, clen, k) {
                                    lemma_children_has_char(csa@, clen, k);
                                    let jj = choose|jj: int|
                                        0 <= jj < csa@.len() && csa@[jj].0 == k.first()
                                            && node_has(*csa@[jj].1, clen, k.drop_first());
                                    assert(csb@[jj].0 == bb);
                                    assert(jj < i);
                                    assert(csb@[jj].0 < csb@[i as int].0);
                                }
                            }
                            assert(node_keys(*a, len).contains(k) != node_keys(*b, len).contains(
                                k,
                            ));
                        } else {
                            let ba = csa@[i as int].0;
                            lemma_node_some_key(*csa@[i as int].1, clen);
                            let qt = choose|qt: Seq<u8>| #[trigger] node_keys(
                                *csa@[i as int].1,
                                clen,
                            ).contains(qt);
                            lemma_node_key_len(*csa@[i as int].1, clen, qt);
                            let k = seq![ba] + qt;
                            assert(k.first() == ba);
                            assert(k.drop_first() =~= qt);
                            lemma_children_has_char(csa@, clen, k);
                            assert(children_has(csa@, clen, k));
                            assert(!children_has(csb@, clen, k)) by {
                                if children_has(csb@, clen, k) {
                                    lemma_children_has_char(csb@, clen, k);
                                    let jj = choose|jj: int|
                                        0 <= jj < csb@.len() && csb@[jj].0 == k.first()
                                            && node_has(*csb@[jj].1, clen, k.drop_first());
                                    assert(csa@[jj].0 == ba);
                                    assert(jj < i);
                                    assert(csa@[jj].0 < csa@[i as int].0);
                                }
                            }
                            assert(node_keys(*a, len).contains(k) != node_keys(*b, len).contains(
                                k,
                            ));
                        }
                    }
                    return false;
                }
                let ba = csa[i].0;
                let bb = csb[i].0;
                if ba != bb {
                    proof {
                        if ba < bb {
                            lemma_node_some_key(*csa@[i as int].1, clen);
                            let qt = choose|qt: Seq<u8>| #[trigger] node_keys(
                                *csa@[i as int].1,
                                clen,
                            ).contains(qt);
                            lemma_node_key_len(*csa@[i as int].1, clen, qt);
                            let k = seq![ba] + qt;
                            assert(k.first() == ba);
                            assert(k.drop_first() =~= qt);
                            lemma_children_has_char(csa@, clen, k);
                            assert(children_has(csa@, clen, k));
                            assert(!children_has(csb@, clen, k)) by {
                                if children_has(csb@, clen, k) {
                                    lemma_children_has_char(csb@, clen, k);
                                    let jj = choose|jj: int|
                                        0 <= jj < csb@.len() && csb@[jj].0 == k.first()
                                            && node_has(*csb@[jj].1, clen, k.drop_first());
                                    if jj < i {
                                        assert(csa@[jj].0 == csb@[jj].0);
                                        assert(csa@[jj].0 < csa@[i as int].0);
                                    } else if jj == i {
                                    } else {
                                        assert(csb@[i as int].0 < csb@[jj].0);
                                    }
                                }
                            }
                            assert(node_keys(*a, len).contains(k) != node_keys(*b, len).contains(
                                k,
                            ));
                        } else {
                            lemma_node_some_key(*csb@[i as int].1, clen);
                            let qt = choose|qt: Seq<u8>| #[trigger] node_keys(
                                *csb@[i as int].1,
                                clen,
                            ).contains(qt);
                            lemma_node_key_len(*csb@[i as int].1, clen, qt);
                            let k = seq![bb] + qt;
                            assert(k.first() == bb);
                            assert(k.drop_first() =~= qt);
                            lemma_children_has_char(csb@, clen, k);
                            assert(children_has(csb@, clen, k));
                            assert(!children_has(csa@, clen, k)) by {
                                if children_has(csa@, clen, k) {
                                    lemma_children_has_char(csa@, clen, k);
                                    let jj = choose|jj: int|
                                        0 <= jj < csa@.len() && csa@[jj].0 == k.first()
                                            && node_has(*csa@[jj].1, clen, k.drop_first());
                                    if jj < i {
                                        assert(csb@[jj].0 == csa@[jj].0);
                                        assert(csb@[jj].0 < csb@[i as int].0);
                                    } else if jj == i {
                                    } else {
                                        assert(csa@[i as int].0 < csa@[jj].0);
                                    }
                                }
                            }
                            assert(node_keys(*a, len).contains(k) != node_keys(*b, len).contains(
                                k,
                            ));
                        }
                    }
                    return false;
                }
                let sub = node_eq(&csa[i].1, &csb[i].1, Ghost(clen));
                if !sub {
                    proof {
                        let ka = node_keys(*csa@[i as int].1, clen);
                        let kb = node_keys(*csb@[i as int].1, clen);
                        assert(exists|q: Seq<u8>| ka.contains(q) != kb.contains(q)) by {
                            if forall|q: Seq<u8>| #[trigger] ka.contains(q) == kb.contains(q) {
                                assert(ka =~= kb);
                            }
                        }
                        let q = choose|q: Seq<u8>| ka.contains(q) != kb.contains(q);
                        let k = seq![ba] + q;
                        assert(k.first() == ba);
                        assert(k.drop_first() =~= q);
                        if ka.contains(q) {
                            lemma_node_key_len(*csa@[i as int].1, clen, q);
                            lemma_children_has_char(csa@, clen, k);
                            assert(children_has(csa@, clen, k));
                            assert(!children_has(csb@, clen, k)) by {
                                if children_has(csb@, clen, k) {
                                    lemma_children_has_char(csb@, clen, k);
                                    let jj = choose|jj: int|
                                        0 <= jj < csb@.len() && csb@[jj].0 == k.first()
                                            && node_has(*csb@[jj].1, clen, k.drop_first());
                                    lemma_sorted_unique(csb@, jj, i as int);
                                }
                            }
                        } else {
                            lemma_node_key_len(*csb@[i as int].1, clen, q);
                            lemma_children_has_char(csb@, clen, k);
                            assert(children_has(csb@, clen, k));
                            assert(!children_has(csa@, clen, k)) by {
                                if children_has(csa@, clen, k) {
                                    lemma_children_has_char(csa@, clen, k);
                                    let jj = choose|jj: int|
                                        0 <= jj < csa@.len() && csa@[jj].0 == k.first()
                                            && node_has(*csa@[jj].1, clen, k.drop_first());
                                    lemma_sorted_unique(csa@, jj, i as int);
                                }
                            }
                        }
                        assert(node_keys(*a, len).contains(k) != node_keys(*b, len).contains(k));
                    }
                    return false;
                }
                i = i + 1;
            }
        },
        (Node::Leaf, Node::Branch { count, children }) => {
            proof {
                assert(false);
            }
            false
        },
        (Node::Branch { count, children }, Node::Leaf) => {
            proof {
                assert(false);
            }
            false
        },
    }
}

impl Trie {
    /// Content equality: because the structure is a canonical form of the
    /// key set, comparing structures decides key-set equality.  This is
    /// what makes a merged trie literally interchangeable with one built
    /// in any other insertion order.
    pub fn same_content(&self, other: &Trie) -> (r: bool)
        requires
            self.wf(),
            other.wf(),
            self.key_len() == other.key_len(),
        ensures
            r == (self@ == other@),
    {
        match (&self.root, &other.root) {
            (None, None) => {
                proof {
                    assert(self@ =~= other@);
                }
                true
            },
            (Some(x), None) => {
                proof {
                    lemma_node_some_key(**x, self.klen as nat);
                }
                false
            },
            (None, Some(y)) => {
                proof {
                    lemma_node_some_key(**y, other.klen as nat);
                }
                false
            },
            (Some(x), Some(y)) => node_eq(x, y, Ghost(self.klen as nat)),
        }
    }
}

} // verus!
