//! An ordered key-value container backed by a singly linked chain of nodes.
//!
//! Each node stores an `i32` key together with a 64-bit payload and owns the
//! node that follows it; the list owns the first node. Keys are unique within
//! a list, traversal order is insertion order, and every operation walks the
//! chain forward from the head. Callers that associate floating-point data
//! with their keys pass the value's bit representation as the payload; the
//! container itself never interprets payloads.

use vstd::prelude::*;

verus! {

/// One stored unit: a key, its payload, and ownership of the rest of the chain.
struct Node {
    key: i32,
    data: u64,
    next: Option<Box<Node>>,
}

/// A singly linked list of key/payload pairs with pairwise distinct keys,
/// in insertion order.
pub struct LinkedList {
    head: Option<Box<Node>>,
}

/// Error returned by [`LinkedList::insert`] when the key is already present.
#[derive(Debug)]
pub struct DuplicateKeyError {
    /// The key that was already stored.
    pub key: i32,
}

/// Error returned by [`LinkedList::delete`] when the key is absent.
#[derive(Debug)]
pub struct KeyNotFoundError {
    /// The key that was searched for.
    pub key: i32,
}

/// No two entries of `s` carry the same key.
pub open spec fn keys_distinct(s: Seq<(i32, u64)>) -> bool {
    forall|i: int, j: int| 0 <= i < j < s.len() ==> s[i].0 != s[j].0
}

/// Some entry of `s` carries the key `k`.
pub open spec fn has_key(s: Seq<(i32, u64)>, k: i32) -> bool {
    exists|i: int| 0 <= i < s.len() && s[i].0 == k
}

/// The payload of the first entry of `s` whose key is `k`, or `None` if no
/// entry carries `k`.
pub open spec fn lookup(s: Seq<(i32, u64)>, k: i32) -> Option<u64>
    decreases s.len(),
{
    if s.len() == 0 {
        None
    } else if s[0].0 == k {
        Some(s[0].1)
    } else {
        lookup(s.drop_first(), k)
    }
}

/// `s` with the first entry whose key is `k` spliced out; `s` itself if no
/// entry carries `k`. The remaining entries keep their relative order.
pub open spec fn remove_key(s: Seq<(i32, u64)>, k: i32) -> Seq<(i32, u64)>
    decreases s.len(),
{
    if s.len() == 0 {
        s
    } else if s[0].0 == k {
        s.drop_first()
    } else {
        seq![s[0]] + remove_key(s.drop_first(), k)
    }
}

/// The contents after one call of `insert`: the new entry is appended at the
/// tail when its key is new, and nothing changes when the key is already
/// present.
pub open spec fn inserted(s: Seq<(i32, u64)>, k: i32, v: u64) -> Seq<(i32, u64)> {
    if has_key(s, k) {
        s
    } else {
        s.push((k, v))
    }
}

impl Node {
    /// The chain hanging off `node`, read as a sequence of key/payload pairs
    /// in traversal order.
    spec fn chain_view(node: Option<Box<Node>>) -> Seq<(i32, u64)>
        decreases node,
    {
        match node {
            None => Seq::empty(),
            Some(n) => seq![(n.key, n.data)] + Node::chain_view(n.next),
        }
    }

    /// Counts the nodes of the chain hanging off `node`.
    fn length_rec(node: &Option<Box<Node>>) -> (n: i32)
        requires
            Node::chain_view(*node).len() <= i32::MAX,
        ensures
            n == Node::chain_view(*node).len(),
        decreases node,
    {
        match node {
            None => 0,
            Some(b) => {
                proof {
                    assert(Node::chain_view(*node)
                        == seq![(b.key, b.data)] + Node::chain_view(b.next));
                }
                1 + Node::length_rec(&b.next)
            }
        }
    }

    /// Returns the payload of the first node of the chain whose key is `k`.
    fn search_rec(node: &Option<Box<Node>>, k: i32) -> (r: Option<u64>)
        ensures
            r == lookup(Node::chain_view(*node), k),
        decreases node,
    {
        match node {
            None => None,
            Some(b) => {
                proof {
                    let s = Node::chain_view(*node);
                    assert(s == seq![(b.key, b.data)] + Node::chain_view(b.next));
                    assert(s[0] == (b.key, b.data));
                    assert(s.drop_first() =~= Node::chain_view(b.next));
                }
                if b.key == k {
                    Some(b.data)
                } else {
                    Node::search_rec(&b.next, k)
                }
            }
        }
    }

    /// Walks the chain; appends a fresh node holding `(k, v)` at the tail if
    /// no node carries `k`, and otherwise reports the duplicate and leaves the
    /// chain exactly as it was.
    fn insert_rec(node: &mut Option<Box<Node>>, k: i32, v: u64) -> (r: Result<
        (),
        DuplicateKeyError,
    >)
        ensures
            (r is Ok) == !has_key(Node::chain_view(*old(node)), k),
            r matches Err(e) ==> e.key == k,
            has_key(Node::chain_view(*old(node)), k) ==> *final(node) == *old(node),
            !has_key(Node::chain_view(*old(node)), k) ==> Node::chain_view(*final(node))
                == Node::chain_view(*old(node)).push((k, v)),
        decreases *old(node),
    {
        match node.take() {
            None => {
                *node = Some(Box::new(Node { key: k, data: v, next: None }));
                proof {
                    let empty = Seq::<(i32, u64)>::empty();
                    assert(Node::chain_view(*old(node)) == empty);
                    assert(Node::chain_view(*node) =~= empty.push((k, v)));
                }
                Ok(())
            },
            Some(mut b) => {
                let ghost s_old = Node::chain_view(*old(node));
                let ghost rest_old = Node::chain_view(b.next);
                proof {
                    assert(s_old == seq![(b.key, b.data)] + rest_old);
                    assert(s_old[0] == (b.key, b.data));
                    lemma_has_key_cons((b.key, b.data), rest_old, k);
                }
                if b.key == k {
                    *node = Some(b);
                    Err(DuplicateKeyError { key: k })
                } else {
                    let r = Node::insert_rec(&mut b.next, k, v);
                    proof {
                        if !has_key(s_old, k) {
                            assert(seq![(b.key, b.data)] + rest_old.push((k, v)) =~= s_old.push(
                                (k, v),
                            ));
                        }
                    }
                    *node = Some(b);
                    r
                }
            },
        }
    }

    /// Walks the chain; splices out the first node that carries `k` by linking
    /// its predecessor to its successor, and reports the key as missing when
    /// the chain holds no such node, leaving it exactly as it was.
    fn delete_rec(node: &mut Option<Box<Node>>, k: i32) -> (r: Result<(), KeyNotFoundError>)
        ensures
            (r is Ok) == has_key(Node::chain_view(*old(node)), k),
            r matches Err(e) ==> e.key == k,
            Node::chain_view(*final(node)) == remove_key(Node::chain_view(*old(node)), k),
            !has_key(Node::chain_view(*old(node)), k) ==> *final(node) == *old(node),
        decreases *old(node),
    {
        match node.take() {
            None => Err(KeyNotFoundError { key: k }),
            Some(mut b) => {
                let ghost s_old = Node::chain_view(*old(node));
                let ghost rest_old = Node::chain_view(b.next);
                proof {
                    assert(s_old == seq![(b.key, b.data)] + rest_old);
                    assert(s_old[0] == (b.key, b.data));
                    assert(s_old.drop_first() =~= rest_old);
                    lemma_has_key_cons((b.key, b.data), rest_old, k);
                }
                if b.key == k {
                    *node = b.next;
                    Ok(())
                } else {
                    let r = Node::delete_rec(&mut b.next, k);
                    proof {
                        assert(remove_key(s_old, k) == seq![(b.key, b.data)] + remove_key(
                            rest_old,
                            k,
                        ));
                    }
                    *node = Some(b);
                    r
                }
            },
        }
    }
}

/// Splitting off the first entry splits `has_key`: the chain `seq![p] + rest`
/// carries `k` exactly when `p` does or `rest` does.
proof fn lemma_has_key_cons(p: (i32, u64), rest: Seq<(i32, u64)>, k: i32)
    ensures
        has_key(seq![p] + rest, k) == (p.0 == k || has_key(rest, k)),
{
    let s = seq![p] + rest;
    assert(s[0] == p);
    if has_key(s, k) && p.0 != k {
        let i = choose|i: int| 0 <= i < s.len() && s[i].0 == k;
        assert(rest[i - 1] == s[i]);
    }
    if has_key(rest, k) {
        let i = choose|i: int| 0 <= i < rest.len() && rest[i].0 == k;
        assert(s[i + 1] == rest[i]);
    }
}

/// Appending an entry adds exactly its key to the keys that are present.
proof fn lemma_has_key_push(s: Seq<(i32, u64)>, k: i32, v: u64, k2: i32)
    ensures
        has_key(s.push((k, v)), k2) == (has_key(s, k2) || k == k2),
{
    let t = s.push((k, v));
    if has_key(t, k2) && k != k2 {
        let i = choose|i: int| 0 <= i < t.len() && t[i].0 == k2;
        assert(s[i] == t[i]);
    }
    if has_key(s, k2) {
        let i = choose|i: int| 0 <= i < s.len() && s[i].0 == k2;
        assert(t[i] == s[i]);
    }
    if k == k2 {
        assert(t[s.len() as int].0 == k2);
    }
}

/// Splitting off the first entry splits `keys_distinct`: the chain
/// `seq![p] + rest` has distinct keys exactly when `rest` does and does not
/// itself carry the key of `p`.
proof fn lemma_keys_distinct_cons(p: (i32, u64), rest: Seq<(i32, u64)>)
    ensures
        keys_distinct(seq![p] + rest) == (!has_key(rest, p.0) && keys_distinct(rest)),
{
    let s = seq![p] + rest;
    assert(s[0] == p);
    assert(forall|i: int| 0 <= i < rest.len() ==> s[i + 1] == #[trigger] rest[i]);
    if keys_distinct(s) {
        if has_key(rest, p.0) {
            let i = choose|i: int| 0 <= i < rest.len() && rest[i].0 == p.0;
            assert(s[0].0 == s[i + 1].0);
            assert(false);
        }
        assert forall|i: int, j: int| 0 <= i < j < rest.len() implies rest[i].0 != rest[j].0 by {
            assert(s[i + 1].0 != s[j + 1].0);
        }
    }
    if !has_key(rest, p.0) && keys_distinct(rest) {
        assert forall|i: int, j: int| 0 <= i < j < s.len() implies s[i].0 != s[j].0 by {
            if i == 0 {
                if s[j].0 == p.0 {
                    assert(rest[j - 1].0 == p.0);
                    assert(has_key(rest, p.0));
                }
            } else {
                assert(s[i] == rest[i - 1]);
                assert(s[j] == rest[j - 1]);
            }
        }
    }
}

/// Appending an entry whose key is new keeps the keys distinct.
proof fn lemma_distinct_push(s: Seq<(i32, u64)>, k: i32, v: u64)
    requires
        keys_distinct(s),
        !has_key(s, k),
    ensures
        keys_distinct(s.push((k, v))),
{
    let t = s.push((k, v));
    assert forall|i: int, j: int| 0 <= i < j < t.len() implies t[i].0 != t[j].0 by {
        if j == s.len() {
            assert(t[i] == s[i]);
            if s[i].0 == k {
                assert(has_key(s, k));
            }
        } else {
            assert(t[i] == s[i]);
            assert(t[j] == s[j]);
        }
    }
}

/// Splicing out the first entry that carries `k` introduces no key: every key
/// present afterwards was present before.
proof fn lemma_remove_key_subset(s: Seq<(i32, u64)>, k: i32, k2: i32)
    ensures
        has_key(remove_key(s, k), k2) ==> has_key(s, k2),
    decreases s.len(),
{
    if s.len() == 0 {
    } else {
        let rest = s.drop_first();
        assert(seq![s[0]] + rest =~= s);
        lemma_has_key_cons(s[0], rest, k2);
        if s[0].0 == k {
        } else {
            lemma_remove_key_subset(rest, k, k2);
            lemma_has_key_cons(s[0], remove_key(rest, k), k2);
        }
    }
}

/// Splicing out the first entry that carries `k` keeps the keys distinct.
proof fn lemma_remove_key_distinct(s: Seq<(i32, u64)>, k: i32)
    requires
        keys_distinct(s),
    ensures
        keys_distinct(remove_key(s, k)),
    decreases s.len(),
{
    if s.len() == 0 {
    } else {
        let rest = s.drop_first();
        assert(seq![s[0]] + rest =~= s);
        lemma_keys_distinct_cons(s[0], rest);
        if s[0].0 == k {
        } else {
            lemma_remove_key_distinct(rest, k);
            lemma_remove_key_subset(rest, k, s[0].0);
            lemma_keys_distinct_cons(s[0], remove_key(rest, k));
        }
    }
}

/// Splicing out the first entry that carries a present key shortens the
/// contents by exactly one entry.
proof fn lemma_remove_key_len(s: Seq<(i32, u64)>, k: i32)
    requires
        has_key(s, k),
    ensures
        remove_key(s, k).len() == s.len() - 1,
    decreases s.len(),
{
    if s.len() == 0 {
    } else if s[0].0 == k {
    } else {
        let rest = s.drop_first();
        assert(seq![s[0]] + rest =~= s);
        lemma_has_key_cons(s[0], rest, k);
        lemma_remove_key_len(rest, k);
    }
}

/// `lookup` succeeds exactly on the keys that `has_key` reports present.
proof fn lemma_lookup_has_key(s: Seq<(i32, u64)>, k: i32)
    ensures
        (lookup(s, k) is Some) == has_key(s, k),
    decreases s.len(),
{
    if s.len() == 0 {
    } else {
        lemma_lookup_has_key(s.drop_first(), k);
        assert(seq![s[0]] + s.drop_first() =~= s);
        lemma_has_key_cons(s[0], s.drop_first(), k);
    }
}

/// When the keys are distinct, `lookup` returns the payload of whichever
/// entry carries the key.
proof fn lemma_lookup_stored(s: Seq<(i32, u64)>, k: i32)
    requires
        keys_distinct(s),
    ensures
        forall|i: int| 0 <= i < s.len() && s[i].0 == k ==> lookup(s, k) == Some(s[i].1),
    decreases s.len(),
{
    if s.len() == 0 {
    } else {
        let rest = s.drop_first();
        assert(seq![s[0]] + rest =~= s);
        lemma_keys_distinct_cons(s[0], rest);
        if s[0].0 == k {
            assert forall|i: int| 0 <= i < s.len() && s[i].0 == k implies lookup(s, k) == Some(
                s[i].1,
            ) by {
                if i > 0 {
                    assert(s[0].0 != s[i].0);
                }
            }
        } else {
            lemma_lookup_stored(rest, k);
            assert forall|i: int| 0 <= i < s.len() && s[i].0 == k implies lookup(s, k) == Some(
                s[i].1,
            ) by {
                assert(i > 0);
                assert(rest[i - 1] == s[i]);
            }
        }
    }
}

/// No key survives its own removal: after splicing out the entry that carries
/// `k` from a chain with distinct keys, `k` is gone.
proof fn lemma_remove_key_gone(s: Seq<(i32, u64)>, k: i32)
    requires
        keys_distinct(s),
    ensures
        !has_key(remove_key(s, k), k),
    decreases s.len(),
{
    if s.len() == 0 {
    } else {
        let rest = s.drop_first();
        assert(seq![s[0]] + rest =~= s);
        lemma_keys_distinct_cons(s[0], rest);
        if s[0].0 == k {
        } else {
            lemma_remove_key_gone(rest, k);
            lemma_has_key_cons(s[0], remove_key(rest, k), k);
        }
    }
}

impl View for LinkedList {
    type V = Seq<(i32, u64)>;

    closed spec fn view(&self) -> Seq<(i32, u64)> {
        Node::chain_view(self.head)
    }
}

impl LinkedList {
    #[verifier::type_invariant]
    spec fn wf(self) -> bool {
        keys_distinct(self@)
    }

    /// Returns an empty list.
    pub fn new() -> (l: LinkedList)
        ensures
            l@ == Seq::<(i32, u64)>::empty(),
            l@.len() == 0,
    {
        LinkedList { head: None }
    }

    /// Counts the nodes by a full traversal from the head.
    pub fn list_length(&self) -> (n: i32)
        requires
            self@.len() <= i32::MAX,
        ensures
            n == self@.len(),
    {
        Node::length_rec(&self.head)
    }

    /// Walks from the head and returns the payload stored under `k`, or
    /// `None` if no node carries `k`. The list is not changed.
    pub fn search(&self, k: i32) -> (r: Option<u64>)
        ensures
            r == lookup(self@, k),
            (r is Some) == has_key(self@, k),
            forall|i: int| 0 <= i < self@.len() && self@[i].0 == k ==> r == Some(self@[i].1),
    {
        proof {
            use_type_invariant(&*self);
            lemma_lookup_has_key(self@, k);
            lemma_lookup_stored(self@, k);
        }
        Node::search_rec(&self.head, k)
    }

    /// Walks the chain from the head and appends a new node holding `(k, v)`
    /// at the tail. If some node already carries `k`, fails with
    /// [`DuplicateKeyError`] naming `k`, and the list is left exactly as it
    /// was.
    pub fn insert(&mut self, k: i32, v: u64) -> (r: Result<(), DuplicateKeyError>)
        ensures
            final(self)@ == inserted(old(self)@, k, v),
            !has_key(old(self)@, k) ==> final(self)@ == old(self)@.push((k, v)),
            has_key(old(self)@, k) ==> final(self)@ == old(self)@,
            (r is Ok) == !has_key(old(self)@, k),
            r matches Err(e) ==> e.key == k,
    {
        proof {
            use_type_invariant(&*self);
        }
        let mut head = None;
        std::mem::swap(&mut head, &mut self.head);
        let r = Node::insert_rec(&mut head, k, v);
        proof {
            if !has_key(old(self)@, k) {
                lemma_distinct_push(old(self)@, k, v);
            }
        }
        self.head = head;
        r
    }

    /// Returns true iff the list holds no node.
    pub fn is_empty(&self) -> (r: bool)
        ensures
            r == (self@.len() == 0),
    {
        match &self.head {
            None => true,
            Some(_) => false,
        }
    }

    /// Walks the chain from the head and splices out the node that carries
    /// `k`, linking its predecessor to its successor (or advancing the head),
    /// so that the remaining nodes keep their relative order. If the list is
    /// empty or no node carries `k`, fails with [`KeyNotFoundError`] naming
    /// `k`, and the list is left exactly as it was.
    pub fn delete(&mut self, k: i32) -> (r: Result<(), KeyNotFoundError>)
        ensures
            final(self)@ == remove_key(old(self)@, k),
            has_key(old(self)@, k) ==> final(self)@.len() == old(self)@.len() - 1,
            !has_key(old(self)@, k) ==> final(self)@ == old(self)@,
            (r is Ok) == has_key(old(self)@, k),
            r matches Err(e) ==> e.key == k,
    {
        proof {
            use_type_invariant(&*self);
        }
        if self.is_empty() {
            return Err(KeyNotFoundError { key: k });
        }
        let mut head = None;
        std::mem::swap(&mut head, &mut self.head);
        let r = Node::delete_rec(&mut head, k);
        proof {
            lemma_remove_key_distinct(old(self)@, k);
            if has_key(old(self)@, k) {
                lemma_remove_key_len(old(self)@, k);
            }
        }
        self.head = head;
        r
    }

    /// Returns the stored key/payload pairs in traversal order, without
    /// changing the list. This is the hook for callers that render or iterate
    /// over the contents.
    pub fn entries(&self) -> (r: Vec<(i32, u64)>)
        ensures
            r@ == self@,
    {
        let mut out: Vec<(i32, u64)> = Vec::new();
        let mut cur: &Option<Box<Node>> = &self.head;
        loop
            invariant
                out@ + Node::chain_view(*cur) == self@,
            ensures
                out@ == self@,
            decreases Node::chain_view(*cur).len(),
        {
            match cur {
                None => {
                    proof {
                        assert(out@ + Node::chain_view(*cur) =~= out@);
                    }
                    break ;
                },
                Some(b) => {
                    proof {
                        assert(Node::chain_view(*cur)
                            == seq![(b.key, b.data)] + Node::chain_view(b.next));
                        assert(out@.push((b.key, b.data)) + Node::chain_view(b.next) =~= out@
                            + Node::chain_view(*cur));
                    }
                    out.push((b.key, b.data));
                    cur = &b.next;
                },
            }
        }
        out
    }

    /// Discards the whole chain, leaving the list empty and ready for further
    /// inserts; afterwards every search comes back empty-handed.
    pub fn clear_list(&mut self)
        ensures
            final(self)@ == Seq::<(i32, u64)>::empty(),
            final(self)@.len() == 0,
            forall|k: i32| lookup(final(self)@, k) == None::<u64>,
    {
        self.head = None;
    }
}

/// The contents after inserting each entry of `todo` in turn, front to back.
pub open spec fn insert_all(s: Seq<(i32, u64)>, todo: Seq<(i32, u64)>) -> Seq<(i32, u64)>
    decreases todo.len(),
{
    if todo.len() == 0 {
        s
    } else {
        insert_all(inserted(s, todo[0].0, todo[0].1), todo.drop_first())
    }
}

/// Inserting a sequence of pairwise distinct keys, none of them present yet,
/// grows the contents by exactly one entry per insert: every insert succeeds,
/// the keys stay distinct, and the final length is the starting length plus
/// the number of inserts.
pub proof fn lemma_distinct_inserts_count(s: Seq<(i32, u64)>, todo: Seq<(i32, u64)>)
    requires
        keys_distinct(s),
        keys_distinct(todo),
        forall|i: int| 0 <= i < todo.len() ==> !has_key(s, #[trigger] todo[i].0),
    ensures
        keys_distinct(insert_all(s, todo)),
        insert_all(s, todo).len() == s.len() + todo.len(),
    decreases todo.len(),
{
    if todo.len() == 0 {
    } else {
        let e = todo[0];
        let rest = todo.drop_first();
        assert(!has_key(s, todo[0].0));
        let s1 = s.push(e);
        lemma_distinct_push(s, e.0, e.1);
        assert(seq![e] + rest =~= todo);
        lemma_keys_distinct_cons(e, rest);
        assert forall|i: int| 0 <= i < rest.len() implies !has_key(s1, #[trigger] rest[i].0) by {
            assert(rest[i] == todo[i + 1]);
            lemma_has_key_push(s, e.0, e.1, rest[i].0);
            if rest[i].0 == e.0 {
                assert(has_key(rest, e.0));
            }
        }
        lemma_distinct_inserts_count(s1, rest);
    }
}

/// Deleting a present key removes exactly that key: in contents with distinct
/// keys that carry `k`, splicing out its entry keeps the keys distinct,
/// shortens the contents by one, makes a search for `k` come back empty, and
/// preserves the search result for every other key.
pub proof fn lemma_delete_preserves_others(s: Seq<(i32, u64)>, k: i32)
    requires
        keys_distinct(s),
        has_key(s, k),
    ensures
        keys_distinct(remove_key(s, k)),
        remove_key(s, k).len() == s.len() - 1,
        lookup(remove_key(s, k), k) == None::<u64>,
        forall|k2: i32| k2 != k ==> lookup(remove_key(s, k), k2) == lookup(s, k2),
    decreases s.len(),
{
    lemma_remove_key_distinct(s, k);
    lemma_remove_key_len(s, k);
    lemma_remove_key_gone(s, k);
    lemma_lookup_has_key(remove_key(s, k), k);
    let rest = s.drop_first();
    assert(seq![s[0]] + rest =~= s);
    lemma_keys_distinct_cons(s[0], rest);
    lemma_has_key_cons(s[0], rest, k);
    if s[0].0 == k {
        assert forall|k2: i32| k2 != k implies lookup(remove_key(s, k), k2) == lookup(s, k2) by {
            assert(remove_key(s, k) == rest);
            assert(lookup(s, k2) == lookup(rest, k2));
        }
    } else {
        lemma_delete_preserves_others(rest, k);
        let r = remove_key(s, k);
        assert(r == seq![s[0]] + remove_key(rest, k));
        assert(r[0] == s[0]);
        assert(r.drop_first() =~= remove_key(rest, k));
        assert forall|k2: i32| k2 != k implies lookup(r, k2) == lookup(s, k2) by {
            if s[0].0 == k2 {
                assert(lookup(r, k2) == Some(r[0].1));
                assert(lookup(s, k2) == Some(s[0].1));
            } else {
                assert(lookup(r, k2) == lookup(remove_key(rest, k), k2));
                assert(lookup(s, k2) == lookup(rest, k2));
            }
        }
    }
}

} // verus!
