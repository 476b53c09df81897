//! The keyword trie and the two operations on it: inserting one keyword's
//! token path, and finding the longest keyword match at a token position.
//!
//! The trie is a tree of [`Node`]s; each child edge is labelled with one
//! token.  Its meaning is the dictionary [`dict_of`]: the map from the token
//! paths that end in a node with a payload to that payload.

use vstd::prelude::*;
use crate::scan::{longest_at, match_at};

verus! {

/// One trie node: an optional clean-word payload and the children, keyed by
/// token.  Keys are unique within one node's child list.
#[derive(Debug)]
pub(crate) struct Node {
    pub(crate) clean_word: Option<String>,
    pub(crate) children: Vec<(String, Node)>,
}

/// The child of `cs` whose key reads `tok`, if any.
pub(crate) open spec fn find_child(cs: Seq<(String, Node)>, tok: Seq<char>) -> Option<Node>
    decreases cs.len(),
{
    if cs.len() == 0 {
        None
    } else if cs[0].0@ == tok {
        Some(cs[0].1)
    } else {
        find_child(cs.drop_first(), tok)
    }
}

/// The node reached from `n` by following `path`, one child edge per token.
pub(crate) open spec fn node_at(n: Node, path: Seq<Seq<char>>) -> Option<Node>
    decreases path.len(),
{
    if path.len() == 0 {
        Some(n)
    } else {
        match find_child(n.children@, path[0]) {
            Some(c) => node_at(c, path.drop_first()),
            None => None,
        }
    }
}

/// `path` leads to a node that carries a payload.
pub(crate) open spec fn has_entry(n: Node, path: Seq<Seq<char>>) -> bool {
    match node_at(n, path) {
        Some(m) => m.clean_word is Some,
        None => false,
    }
}

/// The payload at the end of `path` (meaningful only when `has_entry`).
pub(crate) open spec fn entry_at(n: Node, path: Seq<Seq<char>>) -> Seq<char> {
    match node_at(n, path) {
        Some(m) => match m.clean_word {
            Some(w) => w@,
            None => Seq::empty(),
        },
        None => Seq::empty(),
    }
}

/// The dictionary a trie stands for: every payload-carrying path, mapped to
/// its payload.
pub(crate) open spec fn dict_of(n: Node) -> Map<Seq<Seq<char>>, Seq<char>> {
    Map::new(|p: Seq<Seq<char>>| has_entry(n, p), |p: Seq<Seq<char>>| entry_at(n, p))
}

/// No two children of one node share a key.
pub(crate) open spec fn unique_keys(cs: Seq<(String, Node)>) -> bool {
    forall|i: int, j: int|
        0 <= i < j < cs.len() ==> (#[trigger] cs[i]).0@ != (#[trigger] cs[j]).0@
}

/// The children of a reached node (empty when no node was reached).
pub(crate) open spec fn children_of(o: Option<Node>) -> Seq<(String, Node)> {
    match o {
        Some(m) => m.children@,
        None => Seq::empty(),
    }
}

/// Every node reachable from `n` has unique child keys.
pub(crate) open spec fn wf_node(n: Node) -> bool {
    forall|p: Seq<Seq<char>>|
        #[trigger] node_at(n, p) is Some ==> unique_keys(children_of(node_at(n, p)))
}

/// The position of the first child keyed `tok`, or `cs.len()` if none is.
pub(crate) open spec fn key_index(cs: Seq<(String, Node)>, tok: Seq<char>) -> int
    decreases cs.len(),
{
    if cs.len() == 0 {
        0
    } else if cs[0].0@ == tok {
        0
    } else {
        1 + key_index(cs.drop_first(), tok)
    }
}

pub(crate) proof fn lemma_key_index(cs: Seq<(String, Node)>, tok: Seq<char>)
    ensures
        0 <= key_index(cs, tok) <= cs.len(),
        key_index(cs, tok) < cs.len() ==> (#[trigger] cs[key_index(cs, tok)]).0@ == tok
            && find_child(cs, tok) == Some(cs[key_index(cs, tok)].1),
        forall|j: int| 0 <= j < key_index(cs, tok) ==> (#[trigger] cs[j]).0@ != tok,
        key_index(cs, tok) == cs.len() ==> find_child(cs, tok) is None,
    decreases cs.len(),
{
    if cs.len() == 0 {
    } else if cs[0].0@ == tok {
    } else {
        lemma_key_index(cs.drop_first(), tok);
        assert forall|j: int| 0 <= j < key_index(cs, tok) implies (#[trigger] cs[j]).0@
            != tok by {
            if j >= 1 {
                assert(cs.drop_first()[j - 1] == cs[j]);
            }
        }
    }
}

pub(crate) proof fn lemma_find_child_at(cs: Seq<(String, Node)>, tok: Seq<char>, i: int)
    requires
        0 <= i < cs.len(),
        cs[i].0@ == tok,
        forall|j: int| 0 <= j < i ==> (#[trigger] cs[j]).0@ != tok,
    ensures
        find_child(cs, tok) == Some(cs[i].1),
    decreases cs.len(),
{
    if i == 0 {
    } else {
        assert(forall|j: int|
            0 <= j < cs.drop_first().len() ==> cs.drop_first()[j] == cs[j + 1]);
        lemma_find_child_at(cs.drop_first(), tok, i - 1);
    }
}

pub(crate) proof fn lemma_find_child_missing(cs: Seq<(String, Node)>, tok: Seq<char>)
    requires
        forall|j: int| 0 <= j < cs.len() ==> (#[trigger] cs[j]).0@ != tok,
    ensures
        find_child(cs, tok) is None,
    decreases cs.len(),
{
    if cs.len() == 0 {
    } else {
        assert(forall|j: int|
            0 <= j < cs.drop_first().len() ==> cs.drop_first()[j] == cs[j + 1]);
        lemma_find_child_missing(cs.drop_first(), tok);
    }
}

/// Following a concatenated path is following its parts in turn.
pub(crate) proof fn lemma_node_at_compose(n: Node, p1: Seq<Seq<char>>, p2: Seq<Seq<char>>)
    ensures
        node_at(n, p1 + p2) == (match node_at(n, p1) {
            Some(m) => node_at(m, p2),
            None => None,
        }),
    decreases p1.len(),
{
    if p1.len() == 0 {
        assert(p1 + p2 =~= p2);
    } else {
        assert((p1 + p2)[0] == p1[0]);
        assert((p1 + p2).drop_first() =~= p1.drop_first() + p2);
        match find_child(n.children@, p1[0]) {
            Some(c) => {
                lemma_node_at_compose(c, p1.drop_first(), p2);
            },
            None => {
            },
        }
    }
}

/// A single-token path leads to the child with that key.
pub(crate) proof fn lemma_node_at_single(n: Node, tok: Seq<char>)
    ensures
        node_at(n, seq![tok]) == find_child(n.children@, tok),
{
    assert(seq![tok].drop_first() =~= Seq::<Seq<char>>::empty());
    match find_child(n.children@, tok) {
        Some(c) => {
            assert(node_at(c, seq![tok].drop_first()) == Some(c));
        },
        None => {
        },
    }
}

/// Well-formedness passes to every child.
pub(crate) proof fn lemma_wf_child(n: Node, tok: Seq<char>, c: Node)
    requires
        wf_node(n),
        find_child(n.children@, tok) == Some(c),
    ensures
        wf_node(c),
{
    assert forall|p: Seq<Seq<char>>| #[trigger] node_at(c, p) is Some implies unique_keys(
        children_of(node_at(c, p)),
    ) by {
        lemma_node_at_compose(n, seq![tok], p);
        lemma_node_at_single(n, tok);
        assert(node_at(n, seq![tok] + p) == node_at(c, p));
    }
}

/// Replacing or adding the child keyed `tok` keeps every other subtree, so a
/// well-formed child list yields a well-formed node.
pub(crate) proof fn lemma_wf_replace_child(n1: Node, n2: Node, tok: Seq<char>, c2: Node)
    requires
        wf_node(n1),
        wf_node(c2),
        unique_keys(n2.children@),
        find_child(n2.children@, tok) == Some(c2),
        forall|t: Seq<char>| t != tok ==> find_child(n2.children@, t) == find_child(
            n1.children@,
            t,
        ),
    ensures
        wf_node(n2),
{
    assert forall|p: Seq<Seq<char>>| #[trigger] node_at(n2, p) is Some implies unique_keys(
        children_of(node_at(n2, p)),
    ) by {
        if p.len() == 0 {
        } else if p[0] == tok {
            assert(node_at(n2, p) == node_at(c2, p.drop_first()));
        } else {
            assert(node_at(n2, p) == node_at(n1, p));
        }
    }
}

/// The dictionary of a fresh node is empty.
pub(crate) proof fn lemma_dict_empty(n: Node)
    requires
        n.clean_word is None,
        n.children@.len() == 0,
    ensures
        dict_of(n) == Map::<Seq<Seq<char>>, Seq<char>>::empty(),
        wf_node(n),
{
    assert forall|p: Seq<Seq<char>>| !(#[trigger] has_entry(n, p)) by {
        if p.len() != 0 {
            assert(find_child(n.children@, p[0]) is None);
        }
    }
    assert(dict_of(n) =~~= Map::<Seq<Seq<char>>, Seq<char>>::empty());
    assert forall|p: Seq<Seq<char>>| #[trigger] node_at(n, p) is Some implies unique_keys(
        children_of(node_at(n, p)),
    ) by {
        if p.len() != 0 {
            assert(find_child(n.children@, p[0]) is None);
        }
    }
}

/// Setting the payload of the node itself puts the empty path into its
/// dictionary and changes nothing else.
pub(crate) proof fn lemma_dict_set_payload(n1: Node, n2: Node, w: Seq<char>)
    requires
        n2.children == n1.children,
        n2.clean_word matches Some(cw) && cw@ == w,
    ensures
        dict_of(n2) == dict_of(n1).insert(Seq::empty(), w),
        wf_node(n1) ==> wf_node(n2),
{
    let empty = Seq::<Seq<char>>::empty();
    assert forall|p: Seq<Seq<char>>| true implies {
        &&& (#[trigger] has_entry(n2, p)) <==> (p == empty || has_entry(n1, p))
        &&& (has_entry(n2, p) ==> entry_at(n2, p) == (if p == empty {
            w
        } else {
            entry_at(n1, p)
        }))
    } by {
        if p.len() == 0 {
            assert(p =~= empty);
            assert(node_at(n2, p) == Some(n2));
            assert(node_at(n1, p) == Some(n1));
        } else {
            assert(n2.children@ == n1.children@);
            assert(node_at(n2, p) == node_at(n1, p));
            assert(p != empty);
        }
    }
    assert(dict_of(n2) =~~= dict_of(n1).insert(empty, w));
    if wf_node(n1) {
        assert forall|p: Seq<Seq<char>>| #[trigger] node_at(n2, p) is Some implies unique_keys(
            children_of(node_at(n2, p)),
        ) by {
            if p.len() == 0 {
                assert(node_at(n1, p) is Some);
                assert(children_of(node_at(n2, p)) == n2.children@);
                assert(n2.children@ == n1.children@);
            } else {
                assert(n2.children@ == n1.children@);
                assert(node_at(n2, p) == node_at(n1, p));
                assert(node_at(n1, p) is Some);
            }
        }
    }
}

/// Exchanging the child keyed `tok` for one whose dictionary has gained the
/// entry `rest -> v` makes the node's dictionary gain `tok :: rest -> v`.
pub(crate) proof fn lemma_dict_replace_child(
    n1: Node,
    n2: Node,
    tok: Seq<char>,
    c1: Node,
    c2: Node,
    rest: Seq<Seq<char>>,
    v: Seq<char>,
)
    requires
        n2.clean_word == n1.clean_word,
        find_child(n1.children@, tok) == Some(c1),
        find_child(n2.children@, tok) == Some(c2),
        forall|t: Seq<char>| t != tok ==> find_child(n2.children@, t) == find_child(
            n1.children@,
            t,
        ),
        dict_of(c2) == dict_of(c1).insert(rest, v),
    ensures
        dict_of(n2) == dict_of(n1).insert(seq![tok] + rest, v),
{
    let key = seq![tok] + rest;
    assert(key[0] == tok);
    assert(key.drop_first() =~= rest);
    assert forall|p: Seq<Seq<char>>| true implies {
        &&& has_entry(n2, p) <==> (p == key || has_entry(n1, p))
        &&& (has_entry(n2, p) ==> entry_at(n2, p) == (if p == key {
            v
        } else {
            entry_at(n1, p)
        }))
    } by {
        if p.len() == 0 {
            assert(p != key);
        } else if p[0] != tok {
            assert(node_at(n2, p) == node_at(n1, p));
            assert(p != key);
        } else {
            let q = p.drop_first();
            assert(node_at(n2, p) == node_at(c2, q));
            assert(node_at(n1, p) == node_at(c1, q));
            assert(has_entry(c2, q) == dict_of(c2).contains_key(q));
            assert((p == key) <==> (q == rest)) by {
                if q == rest {
                    assert(p =~= key);
                }
                if p == key {
                    assert(q =~= rest);
                }
            }
            if has_entry(c2, q) {
                assert(entry_at(c2, q) == dict_of(c2)[q]);
                if q == rest {
                    assert(dict_of(c2)[q] == v);
                } else {
                    assert(dict_of(c2)[q] == dict_of(c1)[q]);
                    assert(dict_of(c1).contains_key(q));
                    assert(entry_at(c1, q) == dict_of(c1)[q]);
                }
            } else {
                assert(!dict_of(c2).contains_key(q));
                assert(q != rest);
                assert(!dict_of(c1).contains_key(q));
            }
        }
    }
    assert(dict_of(n2) =~~= dict_of(n1).insert(key, v));
}

/// Adding a child under a fresh key `tok`, whose dictionary holds exactly
/// `rest -> v`, makes the node's dictionary gain `tok :: rest -> v`.
pub(crate) proof fn lemma_dict_new_child(
    n1: Node,
    n2: Node,
    tok: Seq<char>,
    c2: Node,
    rest: Seq<Seq<char>>,
    v: Seq<char>,
)
    requires
        n2.clean_word == n1.clean_word,
        find_child(n1.children@, tok) is None,
        find_child(n2.children@, tok) == Some(c2),
        forall|t: Seq<char>| t != tok ==> find_child(n2.children@, t) == find_child(
            n1.children@,
            t,
        ),
        dict_of(c2) == Map::<Seq<Seq<char>>, Seq<char>>::empty().insert(rest, v),
    ensures
        dict_of(n2) == dict_of(n1).insert(seq![tok] + rest, v),
{
    let key = seq![tok] + rest;
    assert(key[0] == tok);
    assert(key.drop_first() =~= rest);
    assert forall|p: Seq<Seq<char>>| true implies {
        &&& has_entry(n2, p) <==> (p == key || has_entry(n1, p))
        &&& (has_entry(n2, p) ==> entry_at(n2, p) == (if p == key {
            v
        } else {
            entry_at(n1, p)
        }))
    } by {
        if p.len() == 0 {
            assert(p != key);
        } else if p[0] != tok {
            assert(node_at(n2, p) == node_at(n1, p));
            assert(p != key);
        } else {
            let q = p.drop_first();
            assert(node_at(n2, p) == node_at(c2, q));
            assert(node_at(n1, p) is None);
            assert(has_entry(c2, q) == dict_of(c2).contains_key(q));
            assert((p == key) <==> (q == rest)) by {
                if q == rest {
                    assert(p =~= key);
                }
                if p == key {
                    assert(q =~= rest);
                }
            }
            if has_entry(c2, q) {
                assert(q == rest);
                assert(entry_at(c2, q) == dict_of(c2)[q]);
            }
        }
    }
    assert(dict_of(n2) =~~= dict_of(n1).insert(key, v));
}

/// The payload of a node, as a sequence of characters.
pub(crate) open spec fn clean_view(n: Node) -> Option<Seq<char>> {
    match n.clean_word {
        Some(w) => Some(w@),
        None => None,
    }
}

/// Structural equality of two tries: the same payloads and the same children
/// under the same keys, in the same order.
pub(crate) open spec fn node_like(a: Node, b: Node) -> bool
    decreases a,
{
    &&& clean_view(a) == clean_view(b)
    &&& a.children@.len() == b.children@.len()
    &&& forall|i: int|
        0 <= i < a.children@.len() ==> (#[trigger] a.children@[i]).0@ == b.children@[i].0@
            && node_like(a.children@[i].1, b.children@[i].1)
}

/// Whether two tries are structurally equal.
pub(crate) fn node_eq(a: &Node, b: &Node) -> (r: bool)
    ensures
        r == node_like(*a, *b),
    decreases *a,
{
    let payload_eq = match (&a.clean_word, &b.clean_word) {
        (Some(w), Some(v)) => w.eq(v),
        (None, None) => true,
        _ => false,
    };
    if !payload_eq {
        return false;
    }
    let n = a.children.len();
    if n != b.children.len() {
        return false;
    }
    let mut i: usize = 0;
    while i < n
        invariant
            n == a.children@.len(),
            n == b.children@.len(),
            i <= n,
            clean_view(*a) == clean_view(*b),
            forall|k: int|
                0 <= k < i ==> (#[trigger] a.children@[k]).0@ == b.children@[k].0@ && node_like(
                    a.children@[k].1,
                    b.children@[k].1,
                ),
        decreases n - i,
    {
        if !a.children[i].0.eq(&b.children[i].0) {
            return false;
        }
        if !node_eq(&a.children[i].1, &b.children[i].1) {
            return false;
        }
        i = i + 1;
    }
    true
}

impl Node {
    /// A node with no payload and no children.
    pub(crate) fn empty() -> (r: Node)
        ensures
            r.clean_word is None,
            r.children@.len() == 0,
            dict_of(r) == Map::<Seq<Seq<char>>, Seq<char>>::empty(),
            wf_node(r),
    {
        let r = Node { clean_word: None, children: Vec::new() };
        proof {
            lemma_dict_empty(r);
        }
        r
    }
}

/// The position of the child keyed `tok`, if there is one.
fn child_index(cs: &Vec<(String, Node)>, tok: &String) -> (r: Option<usize>)
    ensures
        match r {
            Some(i) => i < cs@.len() && cs@[i as int].0@ == tok@ && find_child(cs@, tok@)
                == Some(cs@[i as int].1),
            None => find_child(cs@, tok@) is None,
        },
{
    let n = cs.len();
    let mut i: usize = 0;
    while i < n
        invariant
            n == cs@.len(),
            i <= n,
            forall|j: int| 0 <= j < i ==> (#[trigger] cs@[j]).0@ != tok@,
        decreases n - i,
    {
        if cs[i].0.eq(tok) {
            proof {
                lemma_find_child_at(cs@, tok@, i as int);
            }
            return Some(i);
        }
        i = i + 1;
    }
    proof {
        lemma_find_child_missing(cs@, tok@);
    }
    None
}

/// Walk (and where needed, grow) the path `segs[k..]` below `node`, and set
/// the payload of its final node to `clean`.  Returns whether the path was
/// new, that is, whether the keyword count grew.
pub(crate) fn insert_at(node: &mut Node, segs: &Vec<String>, k: usize, clean: &str) -> (added:
    bool)
    requires
        wf_node(*old(node)),
        k <= segs@.len(),
    ensures
        wf_node(*final(node)),
        dict_of(*final(node)) == dict_of(*old(node)).insert(
            segs.deep_view().skip(k as int),
            clean@,
        ),
        added == !dict_of(*old(node)).contains_key(segs.deep_view().skip(k as int)),
    decreases segs@.len() - k,
{
    let ghost suffix = segs.deep_view().skip(k as int);
    if k == segs.len() {
        let added = node.clean_word.is_none();
        node.clean_word = Some(clean.to_owned());
        proof {
            assert(suffix =~= Seq::<Seq<char>>::empty());
            lemma_dict_set_payload(*old(node), *node, clean@);
            assert(node_at(*old(node), suffix) == Some(*old(node)));
        }
        added
    } else {
        let tok: &String = &segs[k];
        let ghost rest = segs.deep_view().skip(k as int + 1);
        proof {
            assert(node_at(*old(node), Seq::<Seq<char>>::empty()) is Some);
            assert(unique_keys(old(node).children@));
            assert(segs.deep_view()[k as int] == segs@[k as int]@);
            assert(suffix =~= seq![tok@] + rest) by {
                assert(suffix[0] == segs.deep_view()[k as int]);
            }
        }
        match child_index(&node.children, tok) {
            Some(i) => {
                let ghost cs1 = node.children@;
                let mut pair = node.children.remove(i);
                proof {
                    lemma_wf_child(*old(node), tok@, pair.1);
                }
                let added = insert_at(&mut pair.1, segs, k + 1, clean);
                let ghost c2 = pair.1;
                node.children.insert(i, pair);
                proof {
                    assert(node.children@ =~= cs1.update(i as int, (cs1[i as int].0, c2)));
                    // the updated list keeps every key, so uniqueness carries over
                    assert(unique_keys(node.children@)) by {
                        assert(forall|j: int|
                            0 <= j < cs1.len() ==> (#[trigger] node.children@[j]).0
                                == cs1[j].0);
                    }
                    lemma_find_child_at(node.children@, tok@, i as int);
                    assert forall|t: Seq<char>| t != tok@ implies find_child(node.children@, t)
                        == find_child(cs1, t) by {
                        lemma_key_index(cs1, t);
                        let j = key_index(cs1, t);
                        if j < cs1.len() {
                            assert(j != i);
                            lemma_find_child_at(node.children@, t, j);
                        } else {
                            lemma_find_child_missing(node.children@, t);
                        }
                    }
                    lemma_dict_replace_child(
                        *old(node),
                        *node,
                        tok@,
                        cs1[i as int].1,
                        c2,
                        rest,
                        clean@,
                    );
                    lemma_wf_replace_child(*old(node), *node, tok@, c2);
                    // membership of the whole suffix is membership of the rest below the child
                    lemma_node_at_single(*old(node), tok@);
                    lemma_node_at_compose(*old(node), seq![tok@], rest);
                    assert(has_entry(*old(node), suffix) == has_entry(cs1[i as int].1, rest));
                }
                added
            },
            None => {
                let mut child = Node::empty();
                let added = insert_at(&mut child, segs, k + 1, clean);
                let ghost cs1 = node.children@;
                let tok_owned = tok.clone();
                node.children.push((tok_owned, child));
                proof {
                    let c2 = node.children@[cs1.len() as int].1;
                    assert(node.children@ =~= cs1.push((tok_owned, c2)));
                    lemma_key_index(cs1, tok@);
                    assert(forall|j: int| 0 <= j < cs1.len() ==> (#[trigger] cs1[j]).0@ != tok@);
                    assert(tok_owned@ == tok@);
                    lemma_find_child_at(node.children@, tok@, cs1.len() as int);
                    assert forall|t: Seq<char>| t != tok@ implies find_child(node.children@, t)
                        == find_child(cs1, t) by {
                        lemma_key_index(cs1, t);
                        let j = key_index(cs1, t);
                        if j < cs1.len() {
                            lemma_find_child_at(node.children@, t, j);
                        } else {
                            lemma_find_child_missing(node.children@, t);
                        }
                    }
                    assert(unique_keys(node.children@)) by {
                        assert(unique_keys(cs1));
                        assert(forall|j: int|
                            0 <= j < cs1.len() ==> (#[trigger] node.children@[j]) == cs1[j]);
                    }
                    lemma_dict_new_child(*old(node), *node, tok@, c2, rest, clean@);
                    lemma_wf_replace_child(*old(node), *node, tok@, c2);
                    // the whole suffix was absent: its first edge was missing
                    lemma_node_at_single(*old(node), tok@);
                    lemma_node_at_compose(*old(node), seq![tok@], rest);
                    assert(!has_entry(*old(node), suffix));
                }
                added
            },
        }
    }
}

/// The longest keyword match that starts at token position `pos` of `words`,
/// as the clean word and the match's length in tokens.
pub(crate) fn longest_match_from(root: &Node, words: &Vec<String>, pos: usize) -> (r: Option<
    (String, usize),
>)
    requires
        wf_node(*root),
        pos <= words@.len(),
    ensures
        match r {
            Some(cl) => longest_at(dict_of(*root), words.deep_view(), pos as int, cl.1 as int)
                && cl.0@ == dict_of(*root)[words.deep_view().subrange(
                pos as int,
                pos + cl.1,
            )],
            None => forall|m: int|
                !match_at(dict_of(*root), words.deep_view(), pos as int, m),
        },
{
    let ghost d = dict_of(*root);
    let ghost wv = words.deep_view();
    let n = words.len();
    let mut cur: &Node = root;
    let mut depth: usize = 0;
    let mut best: Option<(String, usize)> = None;
    let mut blocked = false;
    proof {
        assert(wv.subrange(pos as int, pos as int) =~= Seq::<Seq<char>>::empty());
        assert(wv.len() == words@.len());
    }
    while !blocked && pos + depth < n
        invariant
            wf_node(*root),
            d == dict_of(*root),
            wv == words.deep_view(),
            n == wv.len(),
            pos + depth <= n,
            node_at(*root, wv.subrange(pos as int, pos + depth)) == Some(*cur),
            match best {
                Some(b) => 1 <= b.1 <= depth && match_at(d, wv, pos as int, b.1 as int) && b.0@
                    == d[wv.subrange(pos as int, pos + b.1)] && forall|j: int|
                    b.1 < j <= depth ==> !match_at(d, wv, pos as int, j),
                None => forall|j: int| j <= depth ==> !match_at(d, wv, pos as int, j),
            },
            blocked ==> forall|m: int| depth < m ==> !match_at(d, wv, pos as int, m),
        decreases n - pos - depth + (if blocked {
            0int
        } else {
            1int
        }),
    {
        let tok: &String = &words[pos + depth];
        let ghost pre = wv.subrange(pos as int, pos + depth);
        proof {
            assert(unique_keys(cur.children@));
            assert(wv[pos + depth] == words@[pos + depth as int]@);
            assert(wv.subrange(pos as int, pos + depth + 1) =~= pre + seq![tok@]);
        }
        match child_index(&cur.children, tok) {
            Some(i) => {
                let next: &Node = &cur.children[i].1;
                proof {
                    lemma_node_at_compose(*root, pre, seq![tok@]);
                    lemma_node_at_single(*cur, tok@);
                    assert(node_at(*root, wv.subrange(pos as int, pos + depth + 1)) == Some(
                        *next,
                    ));
                }
                cur = next;
                depth = depth + 1;
                let ghost key = wv.subrange(pos as int, pos + depth);
                match &cur.clean_word {
                    Some(w) => {
                        let cl = w.clone();
                        best = Some((cl, depth));
                        proof {
                            assert(has_entry(*root, key));
                            assert(d.contains_key(key));
                            assert(d[key] == entry_at(*root, key));
                        }
                    },
                    None => {
                        proof {
                            assert(!has_entry(*root, key));
                            assert(!d.contains_key(key));
                        }
                    },
                }
            },
            None => {
                proof {
                    lemma_node_at_compose(*root, pre, seq![tok@]);
                    lemma_node_at_single(*cur, tok@);
                    assert(node_at(*root, wv.subrange(pos as int, pos + depth + 1)) is None);
                    assert forall|m: int| depth < m implies !match_at(d, wv, pos as int, m) by {
                        if match_at(d, wv, pos as int, m) {
                            let full = wv.subrange(pos as int, pos + m);
                            assert(wv.subrange(pos as int, pos + depth + 1) + wv.subrange(
                                pos + depth + 1,
                                pos + m,
                            ) =~= full);
                            lemma_node_at_compose(
                                *root,
                                wv.subrange(pos as int, pos + depth + 1),
                                wv.subrange(pos + depth + 1, pos + m),
                            );
                            assert(node_at(*root, full) is None);
                            assert(has_entry(*root, full));
                            assert(false);
                        }
                    }
                }
                blocked = true;
            },
        }
    }
    proof {
        assert forall|m: int| depth < m implies !match_at(d, wv, pos as int, m) by {
            if !blocked {
                assert(pos + depth == n);
            }
        }
    }
    best
}

} // verus!
