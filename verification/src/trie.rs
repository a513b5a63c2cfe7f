//! Ordered prefix trie over command names.
//!
//! Each node keeps its children sorted by key character (binary search on
//! descent), an occurrence count, and — on terminal nodes only — the full
//! inserted string.  The mathematical model of a trie is the function
//! `count_of`, mapping every character sequence to the number of times it
//! was inserted.
use vstd::prelude::*;

verus! {

/// One trie node: children sorted by `key`, `value` set exactly on
/// terminal nodes (`count > 0`), `count` = insertions of the string
/// that ends here.
pub struct Node {
    pub children: Vec<Node>,
    pub key: Option<char>,
    pub value: Option<String>,
    pub count: usize,
}

/// Two nonempty sequences with equal heads and equal tails are equal.
proof fn lemma_cons_eq(a: Seq<char>, b: Seq<char>)
    requires
        a.len() > 0,
        b.len() > 0,
        a[0] == b[0],
        a.drop_first() == b.drop_first(),
    ensures
        a == b,
{
    assert(a.drop_first().len() == a.len() - 1);
    assert(b.drop_first().len() == b.len() - 1);
    assert(a.len() == b.len());
    assert forall|k: int| 0 <= k < a.len() implies a[k] == b[k] by {
        if k > 0 {
            assert(a[k] == a.drop_first()[k - 1]);
            assert(b[k] == b.drop_first()[k - 1]);
        }
    }
    assert(a =~= b);
}

/// A pair collected at a node sitting at path `p`: its value starts
/// with `p` and its count is the count of the value's continuation.
pub open spec fn entry_ok(node: Node, p: Seq<char>, e: (usize, String)) -> bool {
    &&& p.len() <= e.1@.len()
    &&& e.1@.subrange(0, p.len() as int) == p
    &&& e.0 == node.count_of(e.1@.skip(p.len() as int))
    &&& e.0 > 0
}

/// Every pair of `s` is a collected pair of the node at path `p`.
pub open spec fn entries_ok(node: Node, p: Seq<char>, s: Seq<(usize, String)>) -> bool {
    forall|k: int| #![trigger s[k]] 0 <= k < s.len() ==> entry_ok(node, p, s[k])
}

/// Everything inserted below the node at path `p` appears in `s`.
pub open spec fn covers_all(node: Node, p: Seq<char>, s: Seq<(usize, String)>) -> bool {
    forall|t: Seq<char>|
        #![trigger node.count_of(t)]
        node.count_of(t) > 0 ==> exists|k: int| #![trigger s[k]] 0 <= k < s.len() && s[k].1@ == p + t
}

/// Everything inserted below the node at path `p` whose next character
/// leads into one of the first `i` children appears in `s`.
spec fn covers_upto(node: Node, p: Seq<char>, s: Seq<(usize, String)>, i: int) -> bool {
    forall|t: Seq<char>|
        #![trigger node.count_of(t)]
        (node.count_of(t) > 0 && t.len() > 0 && exists|j: int|
            0 <= j < i && (#[trigger] node.children[j].key) == Some(t[0])) ==> exists|k: int|
            #![trigger s[k]]
            0 <= k < s.len() && s[k].1@ == p + t
}

/// Each entry of `s` is the path `p` itself or continues through one of
/// the first `i` children.
spec fn classified_upto(node: Node, p: Seq<char>, s: Seq<(usize, String)>, i: int) -> bool {
    forall|k: int|
        #![trigger s[k]]
        0 <= k < s.len() ==> (s[k].1@.len() == p.len() || (s[k].1@.len() > p.len() && exists|j: int|
            0 <= j < i && (#[trigger] node.children[j].key) == Some(s[k].1@[p.len() as int])))
}

impl Node {
    /// Children all carry a key and are strictly sorted by it.
    pub open spec fn keys_ok(self) -> bool {
        &&& (forall|i: int|
            0 <= i < self.children.len() ==> (#[trigger] self.children[i].key) is Some)
        &&& (forall|i: int, j: int|
            0 <= i < j < self.children.len()
                ==> (#[trigger] self.children[i].key.unwrap() as u32)
                < (#[trigger] self.children[j].key.unwrap() as u32))
    }

    /// Well-formedness of the subtree rooted here, for a node sitting at
    /// path `prefix` from the root: the stored value is exactly the path
    /// of its node, present iff the count is positive, and the children
    /// are sorted and themselves well-formed.
    pub open spec fn wf(self, prefix: Seq<char>) -> bool
        decreases self,
    {
        &&& (self.count > 0 <==> self.value is Some)
        &&& (self.value is Some ==> self.value.unwrap()@ == prefix)
        &&& self.keys_ok()
        &&& (forall|i: int|
            0 <= i < self.children.len()
                ==> (#[trigger] self.children[i]).wf(prefix.push(self.children[i].key.unwrap())))
    }

    /// Some child carries key `c`.
    pub open spec fn has_child(self, c: char) -> bool {
        exists|i: int| 0 <= i < self.children.len() && (#[trigger] self.children[i].key) == Some(c)
    }

    /// The child carrying key `c` (unique when `keys_ok` holds).
    pub open spec fn child_at(self, c: char) -> Node {
        self.children[choose|i: int|
            0 <= i < self.children.len() && (#[trigger] self.children[i].key) == Some(c)]
    }

    /// The model: how many times the string continuing from this node by
    /// the characters of `s` was inserted.
    pub open spec fn count_of(self, s: Seq<char>) -> nat
        decreases s.len(),
    {
        if s.len() == 0 {
            self.count as nat
        } else if self.has_child(s[0]) {
            self.child_at(s[0]).count_of(s.drop_first())
        } else {
            0
        }
    }

    /// With strictly sorted keys, the child with key `c` is unique, so
    /// `child_at` picks exactly the child at a known index.
    pub proof fn lemma_child_at(self, i: int, c: char)
        requires
            self.keys_ok(),
            0 <= i < self.children.len(),
            self.children[i].key == Some(c),
        ensures
            self.has_child(c),
            self.child_at(c) == self.children[i],
    {
        assert(self.has_child(c));
        let j = choose|j: int|
            0 <= j < self.children.len() && (#[trigger] self.children[j].key) == Some(c);
        if i != j {
            if i < j {
                assert((self.children[i].key.unwrap() as u32) < (self.children[j].key.unwrap()
                    as u32));
            } else {
                assert((self.children[j].key.unwrap() as u32) < (self.children[i].key.unwrap()
                    as u32));
            }
        }
    }

    /// A node with no children and count zero models the constant-zero
    /// count function.
    pub proof fn lemma_empty_count(self)
        requires
            self.children.len() == 0,
            self.count == 0,
        ensures
            forall|t: Seq<char>| self.count_of(t) == 0,
    {
        assert forall|t: Seq<char>| self.count_of(t) == 0 by {
            if t.len() > 0 {
                assert(!self.has_child(t[0]));
            }
        }
    }

    pub fn new() -> (r: Node)
        ensures
            r.children@.len() == 0,
            r.key is None,
            r.value is None,
            r.count == 0,
            forall|p: Seq<char>| r.wf(p),
            forall|t: Seq<char>| r.count_of(t) == 0,
    {
        let r = Node { children: Vec::new(), key: None, value: None, count: 0 };
        proof {
            r.lemma_empty_count();
        }
        r
    }

    pub fn with_key(c: char) -> (r: Node)
        ensures
            r.children@.len() == 0,
            r.key == Some(c),
            r.value is None,
            r.count == 0,
            forall|p: Seq<char>| r.wf(p),
            forall|t: Seq<char>| r.count_of(t) == 0,
    {
        let r = Node { children: Vec::new(), key: Some(c), value: None, count: 0 };
        proof {
            r.lemma_empty_count();
        }
        r
    }

    /// Two nodes with the same counter and the same children model the
    /// same count function.
    proof fn lemma_count_frame_same_children(pre: Node, post: Node)
        requires
            pre.keys_ok(),
            post.children@ == pre.children@,
        ensures
            forall|t: Seq<char>| t.len() > 0 ==> post.count_of(t) == pre.count_of(t),
    {
        assert(post.keys_ok());
        assert forall|t: Seq<char>| t.len() > 0 implies post.count_of(t) == pre.count_of(t) by {
            if t.len() > 0 {
                if post.has_child(t[0]) {
                    let j = choose|j: int|
                        0 <= j < post.children.len() && (#[trigger] post.children[j].key) == Some(
                            t[0],
                        );
                    post.lemma_child_at(j, t[0]);
                    pre.lemma_child_at(j, t[0]);
                } else if pre.has_child(t[0]) {
                    let j = choose|j: int|
                        0 <= j < pre.children.len() && (#[trigger] pre.children[j].key) == Some(
                            t[0],
                        );
                    assert(post.children[j].key == Some(t[0]));
                    assert(post.has_child(t[0]));
                }
            }
        }
    }

    /// Replacing the child that carries `suffix[0]` by one whose counts
    /// rose by one exactly at `suffix.drop_first()` raises the parent's
    /// count by one exactly at `suffix`.
    proof fn lemma_count_frame_update(
        pre: Node,
        post: Node,
        i: int,
        c: char,
        new_child: Node,
        suffix: Seq<char>,
    )
        requires
            pre.keys_ok(),
            0 <= i < pre.children.len(),
            pre.children[i].key == Some(c),
            post.children@ == pre.children@.update(i, new_child),
            new_child.key == Some(c),
            post.count == pre.count,
            suffix.len() > 0,
            suffix[0] == c,
            new_child.count_of(suffix.drop_first()) == pre.children[i].count_of(
                suffix.drop_first(),
            ) + 1,
            forall|t: Seq<char>|
                t != suffix.drop_first() ==> new_child.count_of(t) == pre.children[i].count_of(t),
        ensures
            post.keys_ok(),
            post.count_of(suffix) == pre.count_of(suffix) + 1,
            forall|t: Seq<char>| t != suffix ==> post.count_of(t) == pre.count_of(t),
    {
        assert forall|j: int| 0 <= j < post.children.len() implies (#[trigger] post.children[j].key)
            == pre.children[j].key by {
            if j != i {
                assert(post.children[j] == pre.children[j]);
            }
        }
        assert(post.keys_ok());
        pre.lemma_child_at(i, c);
        post.lemma_child_at(i, c);
        assert(post.children[i] == new_child);
        assert(post.count_of(suffix) == pre.count_of(suffix) + 1);
        assert forall|t: Seq<char>| t != suffix implies post.count_of(t) == pre.count_of(t) by {
            if t.len() > 0 {
                if t[0] == c {
                    if t.drop_first() == suffix.drop_first() {
                        lemma_cons_eq(t, suffix);
                    }
                    assert(post.count_of(t) == new_child.count_of(t.drop_first()));
                    assert(pre.count_of(t) == pre.children[i].count_of(t.drop_first()));
                } else {
                    if post.has_child(t[0]) {
                        let j = choose|j: int|
                            0 <= j < post.children.len() && (#[trigger] post.children[j].key)
                                == Some(t[0]);
                        assert(j != i);
                        assert(post.children[j] == pre.children[j]);
                        post.lemma_child_at(j, t[0]);
                        pre.lemma_child_at(j, t[0]);
                    } else if pre.has_child(t[0]) {
                        let j = choose|j: int|
                            0 <= j < pre.children.len() && (#[trigger] pre.children[j].key) == Some(
                                t[0],
                            );
                        assert(post.children[j].key == Some(t[0]));
                        assert(post.has_child(t[0]));
                    }
                }
            }
        }
    }

    /// Inserting at the sort position a fresh child that carries
    /// `suffix[0]` and counts one exactly at `suffix.drop_first()`
    /// raises the parent's count from zero to one exactly at `suffix`.
    proof fn lemma_count_frame_insert(
        pre: Node,
        post: Node,
        i: int,
        c: char,
        new_child: Node,
        suffix: Seq<char>,
    )
        requires
            pre.keys_ok(),
            0 <= i <= pre.children.len(),
            forall|j: int|
                0 <= j < i ==> (#[trigger] pre.children[j].key.unwrap() as u32) < (c as u32),
            forall|j: int|
                i <= j < pre.children.len() ==> (#[trigger] pre.children[j].key.unwrap() as u32)
                    > (c as u32),
            !pre.has_child(c),
            post.children@ == pre.children@.insert(i, new_child),
            new_child.key == Some(c),
            post.count == pre.count,
            suffix.len() > 0,
            suffix[0] == c,
            new_child.count_of(suffix.drop_first()) == 1,
            forall|t: Seq<char>|
                t != suffix.drop_first() ==> new_child.count_of(t) == 0,
        ensures
            post.keys_ok(),
            pre.count_of(suffix) == 0,
            post.count_of(suffix) == 1,
            forall|t: Seq<char>| t != suffix ==> post.count_of(t) == pre.count_of(t),
    {
        assert forall|j: int| 0 <= j < post.children.len() implies (#[trigger] post.children[j].key)
            is Some by {
            if j < i {
                assert(post.children[j] == pre.children[j]);
            } else if j > i {
                assert(post.children[j] == pre.children[j - 1]);
            }
        }
        assert forall|j: int, k: int| 0 <= j < k < post.children.len() implies (
        #[trigger] post.children[j].key.unwrap() as u32) < (#[trigger] post.children[k].key.unwrap()
            as u32) by {
            if j < i {
                assert(post.children[j] == pre.children[j]);
            } else if j > i {
                assert(post.children[j] == pre.children[j - 1]);
            }
            if k < i {
                assert(post.children[k] == pre.children[k]);
            } else if k > i {
                assert(post.children[k] == pre.children[k - 1]);
            }
        }
        assert(post.keys_ok());
        post.lemma_child_at(i, c);
        assert(post.children[i] == new_child);
        assert(post.count_of(suffix) == 1);
        assert forall|t: Seq<char>| t != suffix implies post.count_of(t) == pre.count_of(t) by {
            if t.len() > 0 {
                if t[0] == c {
                    if t.drop_first() == suffix.drop_first() {
                        lemma_cons_eq(t, suffix);
                    }
                    assert(post.count_of(t) == new_child.count_of(t.drop_first()));
                    assert(pre.count_of(t) == 0);
                } else {
                    if post.has_child(t[0]) {
                        let j = choose|j: int|
                            0 <= j < post.children.len() && (#[trigger] post.children[j].key)
                                == Some(t[0]);
                        assert(j != i);
                        post.lemma_child_at(j, t[0]);
                        if j < i {
                            assert(post.children[j] == pre.children[j]);
                            pre.lemma_child_at(j, t[0]);
                        } else {
                            assert(post.children[j] == pre.children[j - 1]);
                            pre.lemma_child_at(j - 1, t[0]);
                        }
                    } else if pre.has_child(t[0]) {
                        let j = choose|j: int|
                            0 <= j < pre.children.len() && (#[trigger] pre.children[j].key) == Some(
                                t[0],
                            );
                        if j < i {
                            assert(post.children[j].key == Some(t[0]));
                        } else {
                            assert(post.children[j + 1].key == Some(t[0]));
                        }
                        assert(post.has_child(t[0]));
                    }
                }
            }
        }
    }

    /// Binary search among the sorted children for key `c`: `Ok` with the
    /// child's index, or `Err` with the insertion point that keeps the
    /// keys sorted.
    fn find_child(&self, c: char) -> (r: Result<usize, usize>)
        requires
            self.keys_ok(),
        ensures
            match r {
                Ok(i) => i < self.children@.len() && self.children@[i as int].key == Some(c),
                Err(i) => {
                    &&& i <= self.children@.len()
                    &&& !self.has_child(c)
                    &&& (forall|j: int|
                        0 <= j < i ==> (#[trigger] self.children@[j].key.unwrap() as u32) < (
                        c as u32))
                    &&& (forall|j: int|
                        i <= j < self.children@.len()
                            ==> (#[trigger] self.children@[j].key.unwrap() as u32) > (c as u32))
                },
            },
    {
        let mut lo: usize = 0;
        let mut hi: usize = self.children.len();
        while lo < hi
            invariant
                lo <= hi <= self.children@.len(),
                self.keys_ok(),
                forall|j: int|
                    0 <= j < lo ==> (#[trigger] self.children@[j].key.unwrap() as u32) < (
                    c as u32),
                forall|j: int|
                    hi <= j < self.children@.len()
                        ==> (#[trigger] self.children@[j].key.unwrap() as u32) > (c as u32),
            decreases hi - lo,
        {
            let mid: usize = lo + (hi - lo) / 2;
            let k: char = match self.children[mid].key {
                Some(k) => k,
                None => {
                    proof {
                        assert(self.children@[mid as int].key is Some);
                    }
                    return Err(0);  // unreachable under keys_ok
                },
            };
            if (k as u32) < (c as u32) {
                lo = mid + 1;
            } else if (k as u32) > (c as u32) {
                hi = mid;
            } else {
                proof {
                    vstd::utf8::char_u32_cast(k, k as u32);
                    vstd::utf8::char_u32_cast(c, c as u32);
                    assert(k == c);
                }
                return Ok(mid);
            }
        }
        proof {
            if self.has_child(c) {
                let j = choose|j: int|
                    0 <= j < self.children@.len() && (#[trigger] self.children@[j].key) == Some(c);
                assert(self.children@[j].key.unwrap() as u32 == c as u32);
            }
        }
        Err(lo)
    }

    /// Walks/creates one child per remaining character of `s` (those from
    /// position `d` on) and bumps the terminal node's count, setting its
    /// value to the whole string.
    /// Walks/creates one child per remaining character of `s` (those from
    /// position `d` on) and bumps the terminal node's count, setting its
    /// value to the whole string.
    fn insert_rec(&mut self, s: &str, d: usize)
        requires
            old(self).wf(s@.subrange(0, d as int)),
            d <= s@.len(),
            old(self).count_of(s@.skip(d as int)) < usize::MAX,
        ensures
            final(self).wf(s@.subrange(0, d as int)),
            final(self).key == old(self).key,
            final(self).count_of(s@.skip(d as int)) == old(self).count_of(s@.skip(d as int)) + 1,
            forall|t: Seq<char>|
                t != s@.skip(d as int) ==> final(self).count_of(t) == old(self).count_of(t),
        decreases s@.len() - d,
    {
        let ghost pre = *self;
        let ghost prefix = s@.subrange(0, d as int);
        let ghost suffix = s@.skip(d as int);
        if d == s.unicode_len() {
            proof {
                assert(suffix.len() == 0);
                assert(prefix =~= s@);
            }
            self.count = self.count + 1;
            self.value = Some(s.to_owned());
            proof {
                let post = *self;
                assert(post.wf(prefix));
                Self::lemma_count_frame_same_children(pre, post);
                assert forall|t: Seq<char>| t != suffix implies post.count_of(t) == pre.count_of(
                    t,
                ) by {
                    if t.len() == 0 {
                        assert(t =~= suffix);
                    }
                }
            }
        } else {
            let c = s.get_char(d);
            proof {
                assert(suffix.len() > 0);
                assert(suffix[0] == c);
                assert(suffix.drop_first() =~= s@.skip(d as int + 1));
                assert(s@.subrange(0, d as int + 1) =~= prefix.push(c));
            }
            match self.find_child(c) {
                Ok(i) => {
                    proof {
                        pre.lemma_child_at(i as int, c);
                    }
                    let mut child = self.children.remove(i);
                    child.insert_rec(s, d + 1);
                    let ghost new_child = child;
                    self.children.insert(i, child);
                    proof {
                        let post = *self;
                        assert(post.children@ =~= pre.children@.update(i as int, new_child));
                        Self::lemma_count_frame_update(
                            pre,
                            post,
                            i as int,
                            c,
                            new_child,
                            suffix,
                        );
                        assert forall|j: int|
                            0 <= j < post.children.len() implies (#[trigger] post.children[j]).wf(
                            prefix.push(post.children[j].key.unwrap()),
                        ) by {
                            if j != i {
                                assert(post.children[j] == pre.children[j]);
                            }
                        }
                        assert(post.wf(prefix));
                    }
                },
                Err(i) => {
                    let mut child = Node::with_key(c);
                    child.insert_rec(s, d + 1);
                    let ghost new_child = child;
                    self.children.insert(i, child);
                    proof {
                        let post = *self;
                        assert(post.children@ =~= pre.children@.insert(i as int, new_child));
                        Self::lemma_count_frame_insert(
                            pre,
                            post,
                            i as int,
                            c,
                            new_child,
                            suffix,
                        );
                        assert forall|j: int|
                            0 <= j < post.children.len() implies (#[trigger] post.children[j]).wf(
                            prefix.push(post.children[j].key.unwrap()),
                        ) by {
                            if j < i {
                                assert(post.children[j] == pre.children[j]);
                            } else if j > i {
                                assert(post.children[j] == pre.children[j - 1]);
                            }
                        }
                        assert(post.wf(prefix));
                    }
                },
            }
        }
    }


    /// Descends along the characters of `s` from position `d`; the node
    /// reached sits at path `s` and carries the counts of every
    /// continuation of `s`.  `None` means nothing below `s` was inserted.
    fn descend_rec<'a>(&'a self, s: &str, d: usize) -> (r: Option<&'a Node>)
        requires
            self.wf(s@.subrange(0, d as int)),
            d <= s@.len(),
        ensures
            match r {
                Some(n) => n.wf(s@) && forall|t: Seq<char>|
                    self.count_of(s@.skip(d as int) + t) == n.count_of(t),
                None => forall|t: Seq<char>| self.count_of(s@.skip(d as int) + t) == 0,
            },
        decreases s@.len() - d,
    {
        if d == s.unicode_len() {
            proof {
                assert(s@.subrange(0, d as int) =~= s@);
                assert forall|t: Seq<char>| self.count_of(s@.skip(d as int) + t) == self.count_of(
                    t,
                ) by {
                    assert(s@.skip(d as int) + t =~= t);
                }
            }
            Some(self)
        } else {
            let c = s.get_char(d);
            proof {
                assert(s@.subrange(0, d as int + 1) =~= s@.subrange(0, d as int).push(c));
            }
            match self.find_child(c) {
                Ok(i) => {
                    proof {
                        self.lemma_child_at(i as int, c);
                    }
                    let ghost child = self.children@[i as int];
                    let r = self.children[i].descend_rec(s, d + 1);
                    proof {
                        assert forall|t: Seq<char>| self.count_of(s@.skip(d as int) + t)
                            == child.count_of(s@.skip(d as int + 1) + t) by {
                            let u = s@.skip(d as int) + t;
                            assert(u.len() > 0);
                            assert(u[0] == c);
                            assert(u.drop_first() =~= s@.skip(d as int + 1) + t);
                        }
                    }
                    r
                },
                Err(_) => {
                    proof {
                        assert forall|t: Seq<char>| self.count_of(s@.skip(d as int) + t)
                            == 0 by {
                            let u = s@.skip(d as int) + t;
                            assert(u.len() > 0);
                            assert(u[0] == c);
                            assert(!self.has_child(u[0]));
                        }
                    }
                    None
                },
            }
        }
    }

    /// Walks the whole subtree rooted here (a node at path `p`) and
    /// returns every terminal's `(count, value)` pair, each exactly once.
    fn collect(&self, Ghost(p): Ghost<Seq<char>>) -> (r: Vec<(usize, String)>)
        requires
            self.wf(p),
        ensures
            entries_ok(*self, p, r@),
            covers_all(*self, p, r@),
            pairs_distinct(r@),
        decreases self,
    {
        let mut r: Vec<(usize, String)> = Vec::new();
        if self.count > 0 {
            proof {
                assert(self.value is Some);
            }
            if let Some(v) = &self.value {
                r.push((self.count, v.clone()));
                proof {
                    assert(r@[0].1@.subrange(0, p.len() as int) =~= p);
                    assert(r@[0].1@.skip(p.len() as int) =~= Seq::<char>::empty());
                    assert(entry_ok(*self, p, r@[0]));
                }
            }
        }
        let mut i: usize = 0;
        while i < self.children.len()
            invariant
                i <= self.children@.len(),
                self.wf(p),
                entries_ok(*self, p, r@),
                self.count > 0 ==> exists|k: int|
                    #![trigger r@[k]]
                    0 <= k < r@.len() && r@[k].1@ == p,
                covers_upto(*self, p, r@, i as int),
                pairs_distinct(r@),
                classified_upto(*self, p, r@, i as int),
            decreases self.children@.len() - i,
        {
            let ghost child = self.children@[i as int];
            let ghost key = child.key.unwrap();
            let ghost q = p.push(key);
            proof {
                assert(child.wf(q));
                assert(decreases_to!(*self => child));
            }
            let mut sub = self.children[i].collect(Ghost(q));
            let ghost sub_snap = sub@;
            let ghost r_before = r@;
            r.append(&mut sub);
            proof {
                assert(r@ == r_before + sub_snap);
                if self.count > 0 {
                    let k0 = choose|k0: int|
                        #![trigger r_before[k0]]
                        0 <= k0 < r_before.len() && r_before[k0].1@ == p;
                    assert(r@[k0] == r_before[k0]);
                }
                Self::lemma_merge_entries_ok(*self, p, i as int, key, q, r_before, sub_snap);
                Self::lemma_merge_covers(*self, p, i as int, key, q, r_before, sub_snap);
                Self::lemma_merge_distinct(*self, p, i as int, key, q, r_before, sub_snap);
                Self::lemma_merge_classified(*self, p, i as int, key, q, r_before, sub_snap);
            }
            i = i + 1;
        }
        proof {
            assert forall|t: Seq<char>| #![trigger self.count_of(t)] self.count_of(t)
                > 0 implies exists|k: int| #![trigger r@[k]] 0 <= k < r@.len() && r@[k].1@ == p
                + t by {
                if t.len() == 0 {
                    let k = choose|k: int| #![trigger r@[k]] 0 <= k < r@.len() && r@[k].1@ == p;
                    assert(p + t =~= p);
                    assert(r@[k].1@ == p + t);
                } else {
                    assert(self.has_child(t[0]));
                }
            }
        }
        r
    }

    /// Entries lifted from the child at `i` are entries of the parent.
    proof fn lemma_merge_entries_ok(
        node: Node,
        p: Seq<char>,
        i: int,
        key: char,
        q: Seq<char>,
        rb: Seq<(usize, String)>,
        sub: Seq<(usize, String)>,
    )
        requires
            node.keys_ok(),
            0 <= i < node.children.len(),
            node.children[i].key == Some(key),
            q == p.push(key),
            entries_ok(node, p, rb),
            entries_ok(node.children[i], q, sub),
        ensures
            entries_ok(node, p, rb + sub),
    {
        let child = node.children[i];
        node.lemma_child_at(i, key);
        let m = rb + sub;
        assert forall|k: int| #![trigger m[k]] 0 <= k < m.len() implies entry_ok(node, p, m[k]) by {
            if k < rb.len() {
                assert(m[k] == rb[k]);
                assert(entry_ok(node, p, rb[k]));
            } else {
                let w = sub[k - rb.len()];
                assert(m[k] == w);
                assert(entry_ok(child, q, w));
                assert(w.1@.subrange(0, p.len() as int) =~= p) by {
                    assert forall|x: int| 0 <= x < p.len() implies w.1@[x] == p[x] by {
                        assert(w.1@[x] == w.1@.subrange(0, q.len() as int)[x]);
                    }
                }
                let u = w.1@.skip(p.len() as int);
                assert(u.len() == w.1@.len() - p.len());
                assert(u.len() > 0);
                assert(u[0] == w.1@[p.len() as int]);
                assert(w.1@[p.len() as int] == w.1@.subrange(0, q.len() as int)[p.len() as int]);
                assert(u[0] == key);
                assert(u.drop_first() =~= w.1@.skip(q.len() as int)) by {
                    assert forall|x: int| 0 <= x < u.drop_first().len() implies u.drop_first()[x]
                        == w.1@.skip(q.len() as int)[x] by {
                        assert(u.drop_first()[x] == u[x + 1]);
                        assert(u[x + 1] == w.1@[p.len() + x + 1]);
                    }
                }
                assert(node.count_of(u) == child.count_of(u.drop_first()));
                assert(entry_ok(node, p, w));
            }
        }
    }

    /// After merging the child's harvest, every completion through the
    /// first `i + 1` children is present.
    proof fn lemma_merge_covers(
        node: Node,
        p: Seq<char>,
        i: int,
        key: char,
        q: Seq<char>,
        rb: Seq<(usize, String)>,
        sub: Seq<(usize, String)>,
    )
        requires
            node.keys_ok(),
            0 <= i < node.children.len(),
            node.children[i].key == Some(key),
            q == p.push(key),
            covers_upto(node, p, rb, i),
            covers_all(node.children[i], q, sub),
        ensures
            covers_upto(node, p, rb + sub, i + 1),
    {
        let child = node.children[i];
        let m = rb + sub;
        assert forall|t: Seq<char>|
            #![trigger node.count_of(t)]
            (node.count_of(t) > 0 && t.len() > 0 && exists|j: int|
                0 <= j < i + 1 && (#[trigger] node.children[j].key) == Some(t[0])) implies exists|
            k: int,
        |
            #![trigger m[k]]
            0 <= k < m.len() && m[k].1@ == p + t by {
            let j = choose|j: int|
                0 <= j < i + 1 && (#[trigger] node.children[j].key) == Some(t[0]);
            if j < i {
                let k = choose|k: int|
                    #![trigger rb[k]]
                    0 <= k < rb.len() && rb[k].1@ == p + t;
                assert(m[k] == rb[k]);
            } else {
                node.lemma_child_at(j, t[0]);
                node.lemma_child_at(i, key);
                assert(t[0] == key);
                assert(node.count_of(t) == child.count_of(t.drop_first()));
                let k0 = choose|k0: int|
                    #![trigger sub[k0]]
                    0 <= k0 < sub.len() && sub[k0].1@ == q + t.drop_first();
                assert(q + t.drop_first() =~= p + t);
                assert(m[rb.len() + k0] == sub[k0]);
            }
        }
    }

    /// Older entries and the child's entries never share a value: they
    /// differ in length or at the character behind the shared prefix.
    proof fn lemma_merge_distinct(
        node: Node,
        p: Seq<char>,
        i: int,
        key: char,
        q: Seq<char>,
        rb: Seq<(usize, String)>,
        sub: Seq<(usize, String)>,
    )
        requires
            node.keys_ok(),
            0 <= i < node.children.len(),
            node.children[i].key == Some(key),
            q == p.push(key),
            pairs_distinct(rb),
            pairs_distinct(sub),
            classified_upto(node, p, rb, i),
            entries_ok(node.children[i], q, sub),
        ensures
            pairs_distinct(rb + sub),
    {
        let m = rb + sub;
        assert forall|k1: int, k2: int| 0 <= k1 < k2 < m.len() implies (#[trigger] m[k1]).1@ != (
        #[trigger] m[k2]).1@ by {
            if k2 < rb.len() {
                assert(m[k1] == rb[k1] && m[k2] == rb[k2]);
            } else if k1 >= rb.len() {
                assert(m[k1] == sub[k1 - rb.len()] && m[k2] == sub[k2 - rb.len()]);
            } else {
                let a = rb[k1];
                let w = sub[k2 - rb.len()];
                assert(m[k1] == a && m[k2] == w);
                assert(entry_ok(node.children[i], q, w));
                assert(w.1@.len() > p.len());
                assert(w.1@[p.len() as int] == w.1@.subrange(0, q.len() as int)[p.len() as int]);
                assert(w.1@[p.len() as int] == key);
                if a.1@.len() == p.len() {
                    assert(a.1@ != w.1@);
                } else {
                    let j = choose|j: int|
                        0 <= j < i && (#[trigger] node.children[j].key) == Some(
                            a.1@[p.len() as int],
                        );
                    assert(node.children[i].key.unwrap() == key);
                    assert((node.children[j].key.unwrap() as u32) < (node.children[i].key.unwrap()
                        as u32));
                    assert(a.1@[p.len() as int] != key);
                }
            }
        }
    }

    /// The merged entries are classified for the next iteration: each
    /// is the path itself or continues through one of the first `i + 1`
    /// children.
    proof fn lemma_merge_classified(
        node: Node,
        p: Seq<char>,
        i: int,
        key: char,
        q: Seq<char>,
        rb: Seq<(usize, String)>,
        sub: Seq<(usize, String)>,
    )
        requires
            node.keys_ok(),
            0 <= i < node.children.len(),
            node.children[i].key == Some(key),
            q == p.push(key),
            classified_upto(node, p, rb, i),
            entries_ok(node.children[i], q, sub),
        ensures
            classified_upto(node, p, rb + sub, i + 1),
    {
        let m = rb + sub;
        assert forall|k: int| #![trigger m[k]] 0 <= k < m.len() implies (m[k].1@.len() == p.len()
            || (m[k].1@.len() > p.len() && exists|j: int|
            0 <= j < i + 1 && (#[trigger] node.children[j].key) == Some(
                m[k].1@[p.len() as int],
            ))) by {
            if k < rb.len() {
                assert(m[k] == rb[k]);
            } else {
                let w = sub[k - rb.len()];
                assert(m[k] == w);
                assert(entry_ok(node.children[i], q, w));
                assert(w.1@[p.len() as int] == w.1@.subrange(0, q.len() as int)[p.len() as int]);
                assert(w.1@[p.len() as int] == key);
                assert(node.children[i].key == Some(w.1@[p.len() as int]));
            }
        }
    }

    /// The terminal node for the characters of `s` from position `d` on
    /// is reachable and has a positive count.
    fn contains_rec(&self, s: &str, d: usize) -> (r: bool)
        requires
            self.wf(s@.subrange(0, d as int)),
            d <= s@.len(),
        ensures
            r == (self.count_of(s@.skip(d as int)) > 0),
        decreases s@.len() - d,
    {
        let ghost suffix = s@.skip(d as int);
        if d == s.unicode_len() {
            proof {
                assert(suffix.len() == 0);
            }
            self.count > 0
        } else {
            let c = s.get_char(d);
            proof {
                assert(suffix.len() > 0);
                assert(suffix[0] == c);
                assert(suffix.drop_first() =~= s@.skip(d as int + 1));
                assert(s@.subrange(0, d as int + 1) =~= s@.subrange(0, d as int).push(c));
            }
            match self.find_child(c) {
                Ok(i) => {
                    proof {
                        self.lemma_child_at(i as int, c);
                    }
                    self.children[i].contains_rec(s, d + 1)
                },
                Err(_) => {
                    proof {
                        assert(!self.has_child(suffix[0]));
                    }
                    false
                },
            }
        }
    }
}

/// Lexicographic order on character sequences, by code point.
pub open spec fn lex_le(a: Seq<char>, b: Seq<char>) -> bool
    decreases a.len(),
{
    if a.len() == 0 {
        true
    } else if b.len() == 0 {
        false
    } else if (a[0] as u32) < (b[0] as u32) {
        true
    } else if (a[0] as u32) > (b[0] as u32) {
        false
    } else {
        lex_le(a.drop_first(), b.drop_first())
    }
}

/// The order is total.
pub proof fn lemma_lex_total(a: Seq<char>, b: Seq<char>)
    ensures
        lex_le(a, b) || lex_le(b, a),
    decreases a.len(),
{
    if a.len() > 0 && b.len() > 0 && (a[0] as u32) == (b[0] as u32) {
        lemma_lex_total(a.drop_first(), b.drop_first());
    }
}

/// The order is transitive.
pub proof fn lemma_lex_trans(a: Seq<char>, b: Seq<char>, c: Seq<char>)
    requires
        lex_le(a, b),
        lex_le(b, c),
    ensures
        lex_le(a, c),
    decreases a.len(),
{
    if a.len() > 0 && b.len() > 0 && c.len() > 0 {
        if (a[0] as u32) == (b[0] as u32) && (b[0] as u32) == (c[0] as u32) {
            lemma_lex_trans(a.drop_first(), b.drop_first(), c.drop_first());
        }
    }
}

/// Comparing under equal prefixes reduces to comparing the remainders.
proof fn lemma_lex_skip(a: Seq<char>, b: Seq<char>, i: int)
    requires
        0 <= i <= a.len(),
        i <= b.len(),
        forall|j: int| 0 <= j < i ==> a[j] == b[j],
    ensures
        lex_le(a, b) == lex_le(a.skip(i), b.skip(i)),
    decreases i,
{
    if i == 0 {
        assert(a.skip(0) =~= a);
        assert(b.skip(0) =~= b);
    } else {
        assert(a.len() > 0 && b.len() > 0 && a[0] == b[0]);
        assert(a.drop_first().skip(i - 1) =~= a.skip(i));
        assert(b.drop_first().skip(i - 1) =~= b.skip(i));
        lemma_lex_skip(a.drop_first(), b.drop_first(), i - 1);
    }
}

/// Whether `a` precedes `b` lexicographically, by code point.
fn str_lex_le(a: &str, b: &str) -> (r: bool)
    ensures
        r == lex_le(a@, b@),
{
    let la = a.unicode_len();
    let lb = b.unicode_len();
    let mut i: usize = 0;
    while i < la && i < lb
        invariant
            i <= la,
            i <= lb,
            la == a@.len(),
            lb == b@.len(),
            forall|j: int| 0 <= j < i ==> a@[j] == b@[j],
        decreases la - i,
    {
        let ca = a.get_char(i);
        let cb = b.get_char(i);
        if (ca as u32) < (cb as u32) {
            proof {
                lemma_lex_skip(a@, b@, i as int);
                assert(a@.skip(i as int)[0] == ca);
                assert(b@.skip(i as int)[0] == cb);
            }
            return true;
        }
        if (ca as u32) > (cb as u32) {
            proof {
                lemma_lex_skip(a@, b@, i as int);
                assert(a@.skip(i as int)[0] == ca);
                assert(b@.skip(i as int)[0] == cb);
            }
            return false;
        }
        proof {
            vstd::utf8::char_u32_cast(ca, ca as u32);
            vstd::utf8::char_u32_cast(cb, cb as u32);
            assert(ca == cb);
        }
        i = i + 1;
    }
    proof {
        lemma_lex_skip(a@, b@, i as int);
        assert(a@.skip(i as int).len() == a@.len() - i);
        assert(b@.skip(i as int).len() == b@.len() - i);
    }
    la <= lb
}

/// The ranking of completion results: higher count first, then
/// lexicographically smaller value first.
pub open spec fn pair_le(a: (usize, Seq<char>), b: (usize, Seq<char>)) -> bool {
    a.0 > b.0 || (a.0 == b.0 && lex_le(a.1, b.1))
}

/// View of a collected pair.
pub open spec fn pair_view(p: (usize, String)) -> (usize, Seq<char>) {
    (p.0, p.1@)
}

fn pair_le_exec(ac: usize, av: &str, bc: usize, bv: &str) -> (r: bool)
    ensures
        r == pair_le((ac, av@), (bc, bv@)),
{
    if ac > bc {
        true
    } else if ac == bc {
        str_lex_le(av, bv)
    } else {
        false
    }
}

/// First position whose element does not rank at or before the probe:
/// the place where the probe belongs in the sorted prefix.
fn find_insert_pos(r: &Vec<(usize, String)>, cnt: usize, sval: &String) -> (j: usize)
    ensures
        j <= r@.len(),
        forall|k: int| 0 <= k < j ==> pair_le(pair_view(r@[k]), (cnt, sval@)),
        j < r@.len() ==> !pair_le(pair_view(r@[j as int]), (cnt, sval@)),
{
    let mut j: usize = 0;
    loop
        invariant
            j <= r@.len(),
            forall|k: int| 0 <= k < j ==> pair_le(pair_view(r@[k]), (cnt, sval@)),
        decreases r@.len() - j,
    {
        if j == r.len() {
            return j;
        }
        if !pair_le_exec(r[j].0, r[j].1.as_str(), cnt, sval.as_str()) {
            return j;
        }
        j = j + 1;
    }
}

/// The collected pairs are sorted by rank.
pub open spec fn pairs_sorted(s: Seq<(usize, String)>) -> bool {
    forall|k1: int, k2: int|
        0 <= k1 < k2 < s.len() ==> pair_le(pair_view(#[trigger] s[k1]), pair_view(#[trigger] s[k2]))
}

/// No two of the collected pairs hold the same value.
pub open spec fn pairs_distinct(s: Seq<(usize, String)>) -> bool {
    forall|k1: int, k2: int| 0 <= k1 < k2 < s.len() ==> (#[trigger] s[k1]).1@ != (#[trigger] s[k2]).1@
}

/// Every element of `s` is one of the first `n` elements of `v`.
pub open spec fn pairs_from(s: Seq<(usize, String)>, v: Seq<(usize, String)>, n: int) -> bool {
    forall|k: int|
        #![trigger s[k]]
        0 <= k < s.len() ==> exists|j: int| #![trigger v[j]] 0 <= j < n && s[k] == v[j]
}

/// Each of the first `n` elements of `v` appears in `s`.
pub open spec fn pairs_onto(s: Seq<(usize, String)>, v: Seq<(usize, String)>, n: int) -> bool {
    forall|j: int|
        #![trigger v[j]]
        0 <= j < n ==> exists|k: int| #![trigger s[k]] 0 <= k < s.len() && s[k] == v[j]
}

/// Inserting an element at its scan position keeps the sequence sorted.
proof fn lemma_insert_sorted(r_old: Seq<(usize, String)>, elem: (usize, String), j: int)
    requires
        0 <= j <= r_old.len(),
        pairs_sorted(r_old),
        forall|k: int| 0 <= k < j ==> pair_le(pair_view(#[trigger] r_old[k]), pair_view(elem)),
        j < r_old.len() ==> !pair_le(pair_view(r_old[j]), pair_view(elem)),
    ensures
        pairs_sorted(r_old.insert(j, elem)),
{
    let r = r_old.insert(j, elem);
    if j < r_old.len() {
        lemma_lex_total(elem.1@, r_old[j].1@);
        assert(pair_le(pair_view(elem), pair_view(r_old[j])));
    }
    assert forall|k1: int, k2: int| 0 <= k1 < k2 < r.len() implies pair_le(
        pair_view(#[trigger] r[k1]),
        pair_view(#[trigger] r[k2]),
    ) by {
        if k1 < j {
            assert(r[k1] == r_old[k1]);
        } else if k1 == j {
            assert(r[k1] == elem);
        } else {
            assert(r[k1] == r_old[k1 - 1]);
        }
        if k2 < j {
            assert(r[k2] == r_old[k2]);
        } else if k2 == j {
            assert(r[k2] == elem);
        } else {
            assert(r[k2] == r_old[k2 - 1]);
        }
        if k1 == j && k2 > j {
            assert(pair_le(pair_view(elem), pair_view(r_old[j])));
            if k2 - 1 > j {
                assert(pair_le(pair_view(r_old[j]), pair_view(r_old[k2 - 1])));
                if elem.0 == r_old[j].0 && r_old[j].0 == r_old[k2 - 1].0 {
                    lemma_lex_trans(elem.1@, r_old[j].1@, r_old[k2 - 1].1@);
                }
            }
        }
    }
}

/// Inserting the `n`-th input element keeps the element-for-element
/// correspondence with the first `n + 1` inputs.
proof fn lemma_insert_elements(
    r_old: Seq<(usize, String)>,
    elem: (usize, String),
    j: int,
    v: Seq<(usize, String)>,
    n: int,
)
    requires
        0 <= j <= r_old.len(),
        0 <= n < v.len(),
        elem == v[n],
        pairs_from(r_old, v, n),
        pairs_onto(r_old, v, n),
    ensures
        pairs_from(r_old.insert(j, elem), v, n + 1),
        pairs_onto(r_old.insert(j, elem), v, n + 1),
{
    let r = r_old.insert(j, elem);
    assert forall|k: int| #![trigger r[k]] 0 <= k < r.len() implies exists|jj: int|
        #![trigger v[jj]]
        0 <= jj < n + 1 && r[k] == v[jj] by {
        if k < j {
            assert(r[k] == r_old[k]);
        } else if k == j {
            assert(r[k] == v[n]);
        } else {
            assert(r[k] == r_old[k - 1]);
        }
    }
    assert forall|jj: int| #![trigger v[jj]] 0 <= jj < n + 1 implies exists|k: int|
        #![trigger r[k]]
        0 <= k < r.len() && r[k] == v[jj] by {
        if jj == n {
            assert(r[j] == v[jj]);
        } else {
            let k0 = choose|k0: int| #![trigger r_old[k0]] 0 <= k0 < r_old.len() && r_old[k0] == v[jj];
            if k0 < j {
                assert(r[k0] == v[jj]);
            } else {
                assert(r[k0 + 1] == v[jj]);
            }
        }
    }
}

/// If the inputs hold pairwise distinct values, insertion keeps the
/// result's values pairwise distinct.
proof fn lemma_insert_distinct(
    r_old: Seq<(usize, String)>,
    elem: (usize, String),
    j: int,
    v: Seq<(usize, String)>,
    n: int,
)
    requires
        0 <= j <= r_old.len(),
        0 <= n < v.len(),
        elem == v[n],
        pairs_from(r_old, v, n),
        pairs_distinct(r_old),
        pairs_distinct(v),
    ensures
        pairs_distinct(r_old.insert(j, elem)),
{
    let r = r_old.insert(j, elem);
    assert forall|k1: int, k2: int| 0 <= k1 < k2 < r.len() implies (#[trigger] r[k1]).1@ != (
    #[trigger] r[k2]).1@ by {
        if k1 != j && k2 != j {
            let a0 = if k1 < j {
                k1
            } else {
                k1 - 1
            };
            let b0 = if k2 < j {
                k2
            } else {
                k2 - 1
            };
            assert(r[k1] == r_old[a0] && r[k2] == r_old[b0]);
        } else {
            let other = if k1 == j {
                k2
            } else {
                k1
            };
            let o0 = if other < j {
                other
            } else {
                other - 1
            };
            assert(r[other] == r_old[o0]);
            let jj = choose|jj: int| #![trigger v[jj]] 0 <= jj < n && r_old[o0] == v[jj];
            assert(v[jj].1@ != v[n].1@);
            assert(r[j] == elem);
        }
    }
}

/// Insertion sort of the collected pairs under `pair_le`: same elements,
/// sorted, and distinct values stay distinct.
fn sort_pairs(v: &Vec<(usize, String)>) -> (r: Vec<(usize, String)>)
    ensures
        r@.len() == v@.len(),
        pairs_from(r@, v@, v@.len() as int),
        pairs_onto(r@, v@, v@.len() as int),
        pairs_sorted(r@),
        pairs_distinct(v@) ==> pairs_distinct(r@),
{
    let mut r: Vec<(usize, String)> = Vec::new();
    let mut i: usize = 0;
    while i < v.len()
        invariant
            i <= v@.len(),
            r@.len() == i,
            pairs_from(r@, v@, i as int),
            pairs_onto(r@, v@, i as int),
            pairs_sorted(r@),
            pairs_distinct(v@) ==> pairs_distinct(r@),
        decreases v@.len() - i,
    {
        let cnt: usize = v[i].0;
        let sval: String = v[i].1.clone();
        let ghost elem = v@[i as int];
        proof {
            assert(elem.0 == cnt && elem.1 == sval);
            assert(elem == (cnt, sval));
        }
        let j: usize = find_insert_pos(&r, cnt, &sval);
        let ghost r_old = r@;
        proof {
            lemma_insert_sorted(r_old, elem, j as int);
            lemma_insert_elements(r_old, elem, j as int, v@, i as int);
            if pairs_distinct(v@) {
                lemma_insert_distinct(r_old, elem, j as int, v@, i as int);
            }
        }
        r.insert(j, (cnt, sval));
        proof {
            assert(r@ =~= r_old.insert(j as int, elem));
        }
        i = i + 1;
    }
    r
}


/// The completion trie: a single root node at the empty path, modelled
/// by the total count function `count_of`.
pub struct Trie {
    pub root: Node,
}

impl Trie {
    /// The structural invariant of the whole trie.
    pub open spec fn wf(self) -> bool {
        self.root.wf(Seq::empty())
    }

    /// The model: how many times `s` was inserted.
    pub open spec fn count_of(self, s: Seq<char>) -> nat {
        self.root.count_of(s)
    }

    pub fn new() -> (r: Trie)
        ensures
            r.wf(),
            forall|t: Seq<char>| r.count_of(t) == 0,
    {
        Trie { root: Node::new() }
    }

    /// Records one more insertion of `s`: its count rises by one and no
    /// other string's count moves.
    pub fn insert(&mut self, s: &str)
        requires
            old(self).wf(),
            old(self).count_of(s@) < usize::MAX,
        ensures
            final(self).wf(),
            final(self).count_of(s@) == old(self).count_of(s@) + 1,
            forall|t: Seq<char>| t != s@ ==> final(self).count_of(t) == old(self).count_of(t),
    {
        proof {
            assert(s@.subrange(0, 0) =~= Seq::<char>::empty());
            assert(s@.skip(0) =~= s@);
        }
        self.root.insert_rec(s, 0);
    }

    /// `v` completes the prefix `p`: it starts with `p` and was inserted.
    pub open spec fn is_completion(self, p: Seq<char>, v: Seq<char>) -> bool {
        p.is_prefix_of(v) && self.count_of(v) > 0
    }

    /// Ranked prefix search: every inserted string starting with `s`,
    /// each exactly once, ordered by descending count and then by
    /// ascending lexicographic value.
    /// The counts that the node reached at path `p` carries are the
    /// trie's own counts of the continuations of `p`.
    spec fn node_matches(self, node: Node, p: Seq<char>) -> bool {
        forall|u: Seq<char>| #![trigger node.count_of(u)] self.count_of(p + u) == node.count_of(u)
    }

    /// Each result of a search is a completion of the prefix, the
    /// results are pairwise distinct, and they come ranked by
    /// descending count, then ascending lexicographic value.
    proof fn lemma_search_sound(
        self,
        node: Node,
        p: Seq<char>,
        pairs: Seq<(usize, String)>,
        sorted: Seq<(usize, String)>,
        out: Seq<String>,
    )
        requires
            self.node_matches(node, p),
            entries_ok(node, p, pairs),
            pairs_from(sorted, pairs, pairs.len() as int),
            pairs_sorted(sorted),
            pairs_distinct(sorted),
            out.len() == sorted.len(),
            forall|x: int| 0 <= x < out.len() ==> (#[trigger] out[x])@ == sorted[x].1@,
        ensures
            forall|k: int| #![trigger out[k]] 0 <= k < out.len() ==> self.is_completion(p, out[k]@),
            forall|k1: int, k2: int|
                0 <= k1 < k2 < out.len() ==> (#[trigger] out[k1])@ != (#[trigger] out[k2])@,
            forall|k1: int, k2: int|
                0 <= k1 < k2 < out.len() ==> (self.count_of((#[trigger] out[k1])@)
                    > self.count_of((#[trigger] out[k2])@) || (self.count_of(out[k1]@)
                    == self.count_of(out[k2]@) && lex_le(out[k1]@, out[k2]@))),
    {
        assert forall|x: int| #![trigger sorted[x]] 0 <= x < sorted.len() implies {
            &&& self.is_completion(p, sorted[x].1@)
            &&& sorted[x].0 == self.count_of(sorted[x].1@)
        } by {
            let j = choose|j: int|
                #![trigger pairs[j]]
                0 <= j < pairs.len() && sorted[x] == pairs[j];
            let w = pairs[j];
            assert(entry_ok(node, p, w));
            assert(w.1@ =~= p + w.1@.skip(p.len() as int));
            assert(self.count_of(w.1@) == node.count_of(w.1@.skip(p.len() as int)));
            assert(p.is_prefix_of(w.1@)) by {
                assert(p =~= w.1@.subrange(0, p.len() as int));
            }
        }
        assert forall|k: int| 0 <= k < out.len() implies self.is_completion(
            p,
            (#[trigger] out[k])@,
        ) by {
            assert(self.is_completion(p, sorted[k].1@));
        }
        assert forall|k1: int, k2: int| 0 <= k1 < k2 < out.len() implies (#[trigger] out[k1])@ != (
        #[trigger] out[k2])@ by {
            assert(sorted[k1].1@ != sorted[k2].1@);
        }
        assert forall|k1: int, k2: int| 0 <= k1 < k2 < out.len() implies (self.count_of(
            (#[trigger] out[k1])@,
        ) > self.count_of((#[trigger] out[k2])@) || (self.count_of(out[k1]@) == self.count_of(
            out[k2]@,
        ) && lex_le(out[k1]@, out[k2]@))) by {
            assert(pair_le(pair_view(sorted[k1]), pair_view(sorted[k2])));
            assert(sorted[k1].0 == self.count_of(out[k1]@));
            assert(sorted[k2].0 == self.count_of(out[k2]@));
        }
    }

    /// Every completion of the prefix appears among the results.
    proof fn lemma_search_complete(
        self,
        node: Node,
        p: Seq<char>,
        pairs: Seq<(usize, String)>,
        sorted: Seq<(usize, String)>,
        out: Seq<String>,
    )
        requires
            self.node_matches(node, p),
            covers_all(node, p, pairs),
            pairs_onto(sorted, pairs, pairs.len() as int),
            out.len() == sorted.len(),
            forall|x: int| 0 <= x < out.len() ==> (#[trigger] out[x])@ == sorted[x].1@,
        ensures
            forall|v: Seq<char>|
                self.is_completion(p, v) ==> exists|k: int|
                    #![trigger out[k]]
                    0 <= k < out.len() && out[k]@ == v,
    {
        assert forall|v: Seq<char>| self.is_completion(p, v) implies exists|k: int|
            #![trigger out[k]]
            0 <= k < out.len() && out[k]@ == v by {
            let t = v.skip(p.len() as int);
            assert(v =~= p + t);
            assert(node.count_of(t) == self.count_of(p + t));
            let j = choose|j: int| #![trigger pairs[j]] 0 <= j < pairs.len() && pairs[j].1@ == p + t;
            let x = choose|x: int|
                #![trigger sorted[x]]
                0 <= x < sorted.len() && sorted[x] == pairs[j];
            assert(out[x]@ == v);
        }
    }

    #[verifier::rlimit(100)]
    pub fn search(&self, s: &str) -> (r: Vec<String>)
        requires
            self.wf(),
        ensures
            forall|k: int| #![trigger r@[k]] 0 <= k < r@.len() ==> self.is_completion(s@, r@[k]@),
            forall|v: Seq<char>|
                self.is_completion(s@, v) ==> exists|k: int|
                    #![trigger r@[k]]
                    0 <= k < r@.len() && r@[k]@ == v,
            forall|k1: int, k2: int|
                0 <= k1 < k2 < r@.len() ==> (#[trigger] r@[k1])@ != (#[trigger] r@[k2])@,
            forall|k1: int, k2: int|
                0 <= k1 < k2 < r@.len() ==> (self.count_of((#[trigger] r@[k1])@) > self.count_of(
                    (#[trigger] r@[k2])@,
                ) || (self.count_of(r@[k1]@) == self.count_of(r@[k2]@) && lex_le(
                    r@[k1]@,
                    r@[k2]@,
                ))),
    {
        proof {
            assert(s@.subrange(0, 0) =~= Seq::<char>::empty());
            assert(s@.skip(0) =~= s@);
        }
        match self.root.descend_rec(s, 0) {
            None => {
                let r: Vec<String> = Vec::new();
                proof {
                    assert forall|v: Seq<char>| !self.is_completion(s@, v) by {
                        if s@.is_prefix_of(v) {
                            assert(v =~= s@ + v.skip(s@.len() as int));
                            assert(self.count_of(s@ + v.skip(s@.len() as int)) == 0);
                        }
                    }
                }
                r
            },
            Some(n) => {
                let ghost node = *n;
                let pairs = n.collect(Ghost(s@));
                let sorted = sort_pairs(&pairs);
                let mut r: Vec<String> = Vec::new();
                let mut k: usize = 0;
                while k < sorted.len()
                    invariant
                        k <= sorted@.len(),
                        r@.len() == k,
                        forall|x: int|
                            0 <= x < k ==> (#[trigger] r@[x])@ == sorted@[x].1@,
                    decreases sorted@.len() - k,
                {
                    r.push(sorted[k].1.clone());
                    k = k + 1;
                }
                proof {
                    let p = s@;
                    assert forall|u: Seq<char>|
                        #![trigger node.count_of(u)]
                        self.count_of(p + u) == node.count_of(u) by {
                        assert(s@.skip(0) + u == p + u);
                    }
                    self.lemma_search_sound(node, p, pairs@, sorted@, r@);
                    self.lemma_search_complete(node, p, pairs@, sorted@, r@);
                }
                r
            },
        }
    }

    /// Whether `s` was inserted at least once.
    pub fn contains(&self, s: &str) -> (r: bool)
        requires
            self.wf(),
        ensures
            r == (self.count_of(s@) > 0),
    {
        proof {
            assert(s@.subrange(0, 0) =~= Seq::<char>::empty());
            assert(s@.skip(0) =~= s@);
        }
        self.root.contains_rec(s, 0)
    }
}

/// One insertion of `s`: its count rises by one, every other count
/// stays - exactly the contract of `Trie::insert`.
pub open spec fn inserted_step(pre: Trie, post: Trie, s: Seq<char>) -> bool {
    &&& post.count_of(s) == pre.count_of(s) + 1
    &&& forall|t: Seq<char>| t != s ==> post.count_of(t) == pre.count_of(t)
}

/// How many entries of `history` equal `s`.
pub open spec fn occurrences(history: Seq<Seq<char>>, s: Seq<char>) -> nat
    decreases history.len(),
{
    if history.len() == 0 {
        0
    } else {
        occurrences(history.drop_last(), s) + if history.last() == s {
            1nat
        } else {
            0nat
        }
    }
}

/// Law: after any sequence of insertions from a fresh trie, the count
/// of every string is exactly how often it was inserted.  `tries[i]`
/// is the trie before the `i`-th insertion, `history[i]` what that
/// insertion inserted.
pub proof fn lemma_insert_history(tries: Seq<Trie>, history: Seq<Seq<char>>, s: Seq<char>)
    requires
        tries.len() == history.len() + 1,
        forall|t: Seq<char>| tries[0].count_of(t) == 0,
        forall|i: int|
            0 <= i < history.len() ==> inserted_step(tries[i], tries[i + 1], #[trigger] history[i]),
    ensures
        tries.last().count_of(s) == occurrences(history, s),
    decreases history.len(),
{
    if history.len() == 0 {
        assert(tries.last() == tries[0]);
    } else {
        let n = history.len() as int;
        lemma_insert_history(tries.drop_last(), history.drop_last(), s);
        assert(tries.drop_last().last() == tries[n - 1]);
        assert(inserted_step(tries[n - 1], tries[n], history[n - 1]));
        assert(history.last() == history[n - 1]);
        assert(tries.last() == tries[n]);
    }
}

/// Law: a string occurs in a history exactly when its occurrence count
/// is positive; with the lemma above, `contains` answers whether the
/// string was ever inserted.
pub proof fn lemma_occurrences_contains(history: Seq<Seq<char>>, s: Seq<char>)
    ensures
        (occurrences(history, s) > 0) <==> history.contains(s),
    decreases history.len(),
{
    if history.len() > 0 {
        lemma_occurrences_contains(history.drop_last(), s);
        if occurrences(history, s) > 0 {
            if history.last() == s {
                assert(history[history.len() - 1] == s);
            } else {
                let i = choose|i: int|
                    0 <= i < history.drop_last().len() && history.drop_last()[i] == s;
                assert(history[i] == s);
            }
        }
        if history.contains(s) {
            let i = choose|i: int| 0 <= i < history.len() && history[i] == s;
            if i < history.len() - 1 {
                assert(history.drop_last()[i] == s);
                assert(history.drop_last().contains(s));
            }
        }
    }
}

/// Law: the completions of a prefix are exactly the completions of the
/// empty prefix restricted to values that start with the prefix; so
/// `search(p)` returns a subset of `search("")`.
pub proof fn lemma_search_subset(t: Trie, p: Seq<char>, v: Seq<char>)
    ensures
        t.is_completion(p, v) <==> (t.is_completion(Seq::<char>::empty(), v) && p.is_prefix_of(v)),
{
    assert(Seq::<char>::empty().is_prefix_of(v)) by {
        assert(v.subrange(0, 0) =~= Seq::<char>::empty());
    }
}

} // verus!
