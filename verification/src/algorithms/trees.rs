use vstd::prelude::*;

verus! {

/// Binary tree of `i32` keys.
#[derive(Debug, PartialEq, Eq)]
pub enum Tree {
    Nil,
    Node(Box<Tree>, i32, Box<Tree>),
}

impl Tree {
    /// The keys held in the tree.
    pub open spec fn keys(self) -> Set<i32>
        decreases self,
    {
        match self {
            Tree::Nil => Set::empty(),
            Tree::Node(l, k, r) => l.keys().union(r.keys()).insert(k),
        }
    }

    /// The keys of the tree read in order: left subtree, node, right subtree.
    pub open spec fn inorder(self) -> Seq<i32>
        decreases self,
    {
        match self {
            Tree::Nil => Seq::empty(),
            Tree::Node(l, k, r) => l.inorder().push(k) + r.inorder(),
        }
    }

    /// Binary search tree order: every key on the left of a node is smaller
    /// than it, every key on its right is larger.
    pub open spec fn is_bst(self) -> bool
        decreases self,
    {
        match self {
            Tree::Nil => true,
            Tree::Node(l, k, r) => {
                &&& l.is_bst()
                &&& r.is_bst()
                &&& forall|x: i32| #[trigger] l.keys().contains(x) ==> x < k
                &&& forall|x: i32| #[trigger] r.keys().contains(x) ==> x > k
            }
        }
    }

    /// Number of levels of the tree.
    pub open spec fn height(self) -> nat
        decreases self,
    {
        match self {
            Tree::Nil => 0,
            Tree::Node(l, _, r) => {
                let a = l.height();
                let b = r.height();
                1 + if a >= b { a } else { b }
            }
        }
    }

    /// Keys visited by a binary-search descent towards `key`, from the root
    /// down to the node holding it; `None` when the descent ends at an empty
    /// subtree.
    pub open spec fn search_path(self, key: i32) -> Option<Seq<i32>>
        decreases self,
    {
        match self {
            Tree::Nil => None,
            Tree::Node(l, k, r) => {
                if key == k {
                    Some(seq![k])
                } else {
                    let sub = if key < k { l.search_path(key) } else { r.search_path(key) };
                    match sub {
                        Some(p) => Some(seq![k] + p),
                        None => None,
                    }
                }
            }
        }
    }

    /// Split node of a binary-search descent for the range `[lo, hi]`: the
    /// first node whose key lies in the range, going left while the range is
    /// below the key and right while it is above.
    pub open spec fn split_key(self, lo: i32, hi: i32) -> Option<i32>
        decreases self,
    {
        match self {
            Tree::Nil => None,
            Tree::Node(l, k, r) => {
                if hi < k {
                    l.split_key(lo, hi)
                } else if lo > k {
                    r.split_key(lo, hi)
                } else {
                    Some(k)
                }
            }
        }
    }
}

/// The keys of a tree are exactly the entries of its in-order reading.
pub proof fn lemma_inorder_keys(t: Tree)
    ensures
        forall|x: i32| t.keys().contains(x) <==> t.inorder().contains(x),
    decreases t,
{
    if let Tree::Node(l, k, r) = t {
        lemma_inorder_keys(*l);
        lemma_inorder_keys(*r);
        let s = l.inorder().push(k) + r.inorder();
        assert forall|x: i32| t.keys().contains(x) <==> t.inorder().contains(x) by {
            if l.inorder().contains(x) {
                let i = choose|i: int| 0 <= i < l.inorder().len() && l.inorder()[i] == x;
                assert(s[i] == x);
            }
            if r.inorder().contains(x) {
                let i = choose|i: int| 0 <= i < r.inorder().len() && r.inorder()[i] == x;
                assert(s[l.inorder().len() + 1 + i] == x);
            }
            assert(s[l.inorder().len() as int] == k);
            if s.contains(x) {
                let i = choose|i: int| 0 <= i < s.len() && s[i] == x;
                if i < l.inorder().len() {
                    assert(l.inorder()[i] == x);
                } else if i > l.inorder().len() {
                    assert(r.inorder()[i - l.inorder().len() - 1] == x);
                }
            }
        }
    }
}

/// The in-order reading of a binary search tree is strictly increasing.
pub proof fn lemma_bst_inorder_ascending(t: Tree)
    requires
        t.is_bst(),
    ensures
        forall|i: int, j: int| 0 <= i < j < t.inorder().len() ==> t.inorder()[i] < t.inorder()[j],
    decreases t,
{
    if let Tree::Node(l, k, r) = t {
        lemma_bst_inorder_ascending(*l);
        lemma_bst_inorder_ascending(*r);
        lemma_inorder_keys(*l);
        lemma_inorder_keys(*r);
        let li = l.inorder();
        let ri = r.inorder();
        let s = li.push(k) + ri;
        assert forall|i: int, j: int| 0 <= i < j < s.len() implies s[i] < s[j] by {
            let n = li.len() as int;
            if i < n {
                assert(li.contains(li[i]));
                assert(l.keys().contains(li[i]));
            }
            if j > n {
                assert(ri.contains(ri[j - n - 1]));
                assert(r.keys().contains(ri[j - n - 1]));
            }
            if i > n {
                assert(s[i] == ri[i - n - 1]);
                assert(s[j] == ri[j - n - 1]);
            }
            if j < n {
                assert(s[i] == li[i]);
                assert(s[j] == li[j]);
            }
        }
    }
}

/// The tree that inserting `key` gives: the search descends left of larger
/// keys and right of smaller ones, stops unchanged at an equal key, and hangs
/// a new leaf where it falls off the tree.
pub open spec fn inserted(t: Tree, key: i32) -> Tree
    decreases t,
{
    match t {
        Tree::Nil => Tree::Node(Box::new(Tree::Nil), key, Box::new(Tree::Nil)),
        Tree::Node(l, k, r) => if key < k {
            Tree::Node(Box::new(inserted(*l, key)), k, r)
        } else if key > k {
            Tree::Node(l, k, Box::new(inserted(*r, key)))
        } else {
            Tree::Node(l, k, r)
        },
    }
}

/// An ascending sequence with `key` put in its place (unchanged when `key`
/// is already there).
pub open spec fn sorted_insert(s: Seq<i32>, key: i32) -> Seq<i32>
    decreases s.len(),
{
    if s.len() == 0 {
        seq![key]
    } else if s[0] == key {
        s
    } else if key < s[0] {
        seq![key] + s
    } else {
        seq![s[0]] + sorted_insert(s.drop_first(), key)
    }
}

/// Inserts `key` into a binary search tree, leaving the tree unchanged when the
/// key is already there.
pub fn bst_insert(tree: Tree, key: i32) -> (out: Tree)
    ensures
        out == inserted(tree, key),
        out.keys() == tree.keys().insert(key),
        tree.is_bst() ==> out.is_bst(),
        tree.is_bst() && tree.keys().contains(key) ==> out == tree,
    decreases tree,
{
    proof {
        if tree.is_bst() && tree.keys().contains(key) {
            lemma_insert_present(tree, key);
        }
    }
    match tree {
        Tree::Nil => Tree::Node(Box::new(Tree::Nil), key, Box::new(Tree::Nil)),
        Tree::Node(left, k, right) => {
            if key < k {
                let nl = bst_insert(*left, key);
                let out = Tree::Node(Box::new(nl), k, right);
                assert(out.keys() =~= tree.keys().insert(key));
                out
            } else if key > k {
                let nr = bst_insert(*right, key);
                let out = Tree::Node(left, k, Box::new(nr));
                assert(out.keys() =~= tree.keys().insert(key));
                out
            } else {
                let out = Tree::Node(left, k, right);
                assert(out.keys() =~= tree.keys().insert(key));
                out
            }
        }
    }
}

/// Inserting a key that a search tree already holds leaves it unchanged.
pub proof fn lemma_insert_present(t: Tree, key: i32)
    requires
        t.is_bst(),
        t.keys().contains(key),
    ensures
        inserted(t, key) == t,
    decreases t,
{
    if let Tree::Node(l, k, r) = t {
        if key < k {
            assert(!r.keys().contains(key));
            lemma_insert_present(*l, key);
        } else if key > k {
            assert(!l.keys().contains(key));
            lemma_insert_present(*r, key);
        }
    }
}

/// Inserting the same key twice gives the same tree as inserting it once,
/// whatever the tree (search tree or not); since `bst_insert` returns
/// `inserted`, `bst_insert(bst_insert(t, k), k) == bst_insert(t, k)`.
pub proof fn lemma_insert_idempotent(t: Tree, key: i32)
    ensures
        inserted(inserted(t, key), key) == inserted(t, key),
    decreases t,
{
    if let Tree::Node(l, k, r) = t {
        if key < k {
            lemma_insert_idempotent(*l, key);
        } else if key > k {
            lemma_insert_idempotent(*r, key);
        }
    }
}

/// Putting `key` after a prefix of smaller entries puts it into the rest.
proof fn lemma_sorted_insert_prefix(p: Seq<i32>, rest: Seq<i32>, key: i32)
    requires
        forall|i: int| 0 <= i < p.len() ==> p[i] < key,
    ensures
        sorted_insert(p + rest, key) == p + sorted_insert(rest, key),
    decreases p.len(),
{
    if p.len() > 0 {
        let s = p + rest;
        assert(s[0] == p[0]);
        assert(s.drop_first() =~= p.drop_first() + rest);
        lemma_sorted_insert_prefix(p.drop_first(), rest, key);
        assert(p + sorted_insert(rest, key) =~= seq![p[0]] + (p.drop_first() + sorted_insert(rest, key)));
    } else {
        assert(p + rest =~= rest);
        assert(p + sorted_insert(rest, key) =~= sorted_insert(rest, key));
    }
}

/// A key smaller than the first entry of `tail` goes in before `tail`.
proof fn lemma_sorted_insert_before(l: Seq<i32>, tail: Seq<i32>, key: i32)
    requires
        tail.len() > 0,
        key < tail[0],
    ensures
        sorted_insert(l + tail, key) == sorted_insert(l, key) + tail,
    decreases l.len(),
{
    let s = l + tail;
    if l.len() == 0 {
        assert(s =~= tail);
        assert(sorted_insert(l, key) + tail =~= seq![key] + tail);
    } else {
        assert(s[0] == l[0]);
        assert(s.drop_first() =~= l.drop_first() + tail);
        lemma_sorted_insert_before(l.drop_first(), tail, key);
        if l[0] == key {
            assert(sorted_insert(l, key) + tail =~= s);
        } else if key < l[0] {
            assert(sorted_insert(l, key) + tail =~= seq![key] + s);
        } else {
            assert(sorted_insert(l, key) + tail
                =~= seq![l[0]] + (sorted_insert(l.drop_first(), key) + tail));
        }
    }
}

/// The in-order reading after inserting into a search tree (so after
/// `bst_insert`) is the old ascending reading with the key put in its place,
/// unchanged when it was there.
pub proof fn lemma_insert_inorder(t: Tree, key: i32)
    requires
        t.is_bst(),
    ensures
        inserted(t, key).inorder() == sorted_insert(t.inorder(), key),
    decreases t,
{
    if let Tree::Node(l, k, r) = t {
        let li = l.inorder();
        let ri = r.inorder();
        lemma_inorder_keys(*l);
        assert(t.inorder() == li.push(k) + ri);
        if key < k {
            lemma_insert_inorder(*l, key);
            let tail = seq![k] + ri;
            assert(li.push(k) + ri =~= li + tail);
            lemma_sorted_insert_before(li, tail, key);
            assert(inserted(t, key).inorder() =~= sorted_insert(li, key) + tail);
        } else if key > k {
            lemma_insert_inorder(*r, key);
            let p = li.push(k);
            assert forall|i: int| 0 <= i < p.len() implies p[i] < key by {
                if i < li.len() {
                    assert(li.contains(li[i]));
                    assert(l.keys().contains(li[i]));
                }
            }
            lemma_sorted_insert_prefix(p, ri, key);
        } else {
            let tail = seq![k] + ri;
            assert forall|i: int| 0 <= i < li.len() implies li[i] < key by {
                assert(li.contains(li[i]));
                assert(l.keys().contains(li[i]));
            }
            assert(li.push(k) + ri =~= li + tail);
            lemma_sorted_insert_prefix(li, tail, key);
            assert(sorted_insert(tail, key) == tail);
        }
    } else {
        let n = Tree::Node(Box::new(Tree::Nil), key, Box::new(Tree::Nil));
        assert(inserted(t, key) == n);
        assert(Tree::Nil.inorder() =~= Seq::<i32>::empty());
        assert(n.inorder() =~= seq![key]);
        assert(t.inorder() =~= Seq::<i32>::empty());
    }
}

/// Appends the in-order reading of `tree` to `out`.
pub fn inorder(tree: &Tree, out: &mut Vec<i32>)
    ensures
        final(out)@ == old(out)@ + tree.inorder(),
    decreases tree,
{
    if let Tree::Node(l, k, r) = tree {
        let ghost start = out@;
        inorder(l, out);
        out.push(*k);
        inorder(r, out);
        assert(out@ =~= start + tree.inorder());
    }
}

/// Inserts the keys one after another, in order.
pub fn build(tree: Tree, keys: &[i32]) -> (out: Tree)
    ensures
        out.keys() == tree.keys().union(keys@.to_set()),
        tree.is_bst() ==> out.is_bst(),
{
    let ghost start = tree;
    let mut t = tree;
    let mut i: usize = 0;
    while i < keys.len()
        invariant
            0 <= i <= keys@.len(),
            t.keys() == start.keys().union(keys@.take(i as int).to_set()),
            start.is_bst() ==> t.is_bst(),
        decreases keys@.len() - i,
    {
        t = bst_insert(t, keys[i]);
        proof {
            assert(keys@.take(i + 1) == keys@.take(i as int).push(keys@[i as int]));
            let prefix = keys@.take(i as int);
            assert forall|x: i32| #[trigger] prefix.push(keys@[i as int]).contains(x)
                <==> prefix.contains(x) || x == keys@[i as int] by {
                if prefix.push(keys@[i as int]).contains(x) {
                    let j = choose|j: int| 0 <= j < prefix.len() + 1 && prefix.push(keys@[i as int])[j] == x;
                    if j < prefix.len() {
                        assert(prefix[j] == x);
                    }
                }
                if prefix.contains(x) {
                    let j = choose|j: int| 0 <= j < prefix.len() && prefix[j] == x;
                    assert(prefix.push(keys@[i as int])[j] == x);
                }
                assert(prefix.push(keys@[i as int])[prefix.len() as int] == keys@[i as int]);
            }
            assert(keys@.take(i + 1).to_set() =~= prefix.to_set().insert(keys@[i as int]));
            assert(t.keys() =~= start.keys().union(keys@.take(i + 1).to_set()));
        }
        i = i + 1;
    }
    proof {
        assert(keys@.take(keys@.len() as int) == keys@);
    }
    t
}

/// Binary-search lookup of `key`.
pub fn contains(tree: &Tree, key: i32) -> (found: bool)
    ensures
        found ==> tree.keys().contains(key),
        tree.is_bst() ==> (found == tree.keys().contains(key)),
{
    let mut cur = tree;
    loop
        invariant
            cur.keys().subset_of(tree.keys()),
            tree.is_bst() ==> cur.is_bst(),
            tree.is_bst() ==> (tree.keys().contains(key) == cur.keys().contains(key)),
        decreases cur.height(),
    {
        match cur {
            Tree::Nil => {
                return false;
            },
            Tree::Node(l, k, r) => {
                if key == *k {
                    return true;
                }
                if key < *k {
                    assert(cur.is_bst() ==> !r.keys().contains(key));
                    cur = l;
                } else {
                    assert(cur.is_bst() ==> !l.keys().contains(key));
                    cur = r;
                }
            },
        }
    }
}

/// Lowest common ancestor of `p` and `q` in a binary search tree: the first
/// node on the descent whose key lies between them (inclusive); `None` when the
/// descent falls off the tree.
pub fn lca_bst(tree: &Tree, p: i32, q: i32) -> (res: Option<i32>)
    ensures
        res == tree.split_key(if p <= q { p } else { q }, if p <= q { q } else { p }),
{
    let (lo, hi) = if p <= q { (p, q) } else { (q, p) };
    let mut cur = tree;
    loop
        invariant
            lo == (if p <= q { p } else { q }),
            hi == (if p <= q { q } else { p }),
            cur.split_key(lo, hi) == tree.split_key(lo, hi),
        decreases cur.height(),
    {
        match cur {
            Tree::Nil => {
                return None;
            },
            Tree::Node(left, k, right) => {
                if hi < *k {
                    cur = left;
                } else if lo > *k {
                    cur = right;
                } else {
                    return Some(*k);
                }
            },
        }
    }
}

/// Length of the common prefix of `a` and `b` from position `i` on, counted
/// from the start.
pub open spec fn common_prefix_from(a: Seq<i32>, b: Seq<i32>, i: nat) -> nat
    decreases a.len() - i,
{
    if i < a.len() && i < b.len() && a[i as int] == b[i as int] {
        common_prefix_from(a, b, i + 1)
    } else {
        i
    }
}

/// Last entry of the longest common prefix of `a` and `b`, if it is not empty.
pub open spec fn last_common(a: Seq<i32>, b: Seq<i32>) -> Option<i32> {
    let m = common_prefix_from(a, b, 0);
    if m == 0 { None } else { Some(a[m - 1]) }
}

/// Descent path from the root to the node holding `key`.
pub fn path_to(tree: &Tree, key: i32) -> (res: Option<Vec<i32>>)
    ensures
        match res {
            Some(v) => tree.search_path(key) == Some(v@),
            None => tree.search_path(key) is None,
        },
    decreases tree,
{
    match tree {
        Tree::Nil => None,
        Tree::Node(l, k, r) => {
            if key == *k {
                let mut v: Vec<i32> = Vec::new();
                v.push(*k);
                assert(v@ =~= seq![*k]);
                Some(v)
            } else {
                let sub = if key < *k { path_to(l, key) } else { path_to(r, key) };
                match sub {
                    Some(mut p) => {
                        let ghost tail = p@;
                        p.insert(0, *k);
                        assert(p@ =~= seq![*k] + tail);
                        Some(p)
                    },
                    None => None,
                }
            }
        },
    }
}

/// Lowest common ancestor found the slow way: the last key shared by the
/// descent paths to `p` and to `q`; `None` when either key is missing.
pub fn brute_lca(tree: &Tree, p: i32, q: i32) -> (res: Option<i32>)
    ensures
        res == match (tree.search_path(p), tree.search_path(q)) {
            (Some(a), Some(b)) => last_common(a, b),
            _ => None,
        },
{
    let pp = match path_to(tree, p) {
        Some(v) => v,
        None => {
            return None;
        },
    };
    let pq = match path_to(tree, q) {
        Some(v) => v,
        None => {
            return None;
        },
    };
    let mut last: Option<i32> = None;
    let mut i: usize = 0;
    while i < pp.len() && i < pq.len()
        invariant_except_break
            i <= pp@.len(),
            i <= pq@.len(),
            common_prefix_from(pp@, pq@, i as nat) == common_prefix_from(pp@, pq@, 0),
            last == (if i == 0 { None } else { Some(pp@[i - 1]) }),
        ensures
            common_prefix_from(pp@, pq@, i as nat) == common_prefix_from(pp@, pq@, 0),
            common_prefix_from(pp@, pq@, i as nat) == i,
            last == (if i == 0 { None } else { Some(pp@[i - 1]) }),
        decreases pp@.len() - i,
    {
        if pp[i] == pq[i] {
            last = Some(pp[i]);
        } else {
            break;
        }
        i = i + 1;
    }
    last
}

/// The descent towards a key of a binary search tree finds it.
proof fn lemma_search_path_found(t: Tree, key: i32)
    requires
        t.is_bst(),
        t.keys().contains(key),
    ensures
        t.search_path(key) is Some,
    decreases t,
{
    if let Tree::Node(l, k, r) = t {
        if key < k {
            assert(!r.keys().contains(key));
            lemma_search_path_found(*l, key);
        } else if key > k {
            assert(!l.keys().contains(key));
            lemma_search_path_found(*r, key);
        }
    }
}

/// A common first entry adds one to the common prefix.
proof fn lemma_common_prefix_shift(k: i32, x: Seq<i32>, y: Seq<i32>, i: nat)
    ensures
        common_prefix_from(seq![k] + x, seq![k] + y, i + 1) == 1 + common_prefix_from(x, y, i),
    decreases x.len() - i,
{
    let a = seq![k] + x;
    let b = seq![k] + y;
    if i < x.len() && i < y.len() && x[i as int] == y[i as int] {
        assert(a[i + 1int] == x[i as int]);
        assert(b[i + 1int] == y[i as int]);
        lemma_common_prefix_shift(k, x, y, i + 1);
    } else if i < x.len() && i < y.len() {
        assert(a[i + 1int] == x[i as int]);
        assert(b[i + 1int] == y[i as int]);
    }
}

/// In a binary search tree holding both keys, the split node of the descent is
/// the last key shared by the paths to the two keys.
pub proof fn lemma_split_is_last_common(t: Tree, lo: i32, hi: i32)
    requires
        t.is_bst(),
        lo <= hi,
        t.keys().contains(lo),
        t.keys().contains(hi),
    ensures
        t.search_path(lo) is Some,
        t.search_path(hi) is Some,
        t.split_key(lo, hi) == last_common(t.search_path(lo)->0, t.search_path(hi)->0),
    decreases t,
{
    lemma_search_path_found(t, lo);
    lemma_search_path_found(t, hi);
    if let Tree::Node(l, k, r) = t {
        let a = t.search_path(lo)->0;
        let b = t.search_path(hi)->0;
        if hi < k {
            assert(!r.keys().contains(lo) && !r.keys().contains(hi));
            lemma_split_is_last_common(*l, lo, hi);
            lemma_split_in_keys(*l, lo, hi);
            let x = l.search_path(lo)->0;
            let y = l.search_path(hi)->0;
            lemma_common_prefix_props(x, y, 0);
            assert(a == seq![k] + x);
            assert(b == seq![k] + y);
            lemma_common_prefix_shift(k, x, y, 0);
            assert(a[0] == b[0]);
            let m = common_prefix_from(x, y, 0);
            if m > 0 {
                assert(a[m as int] == x[m - 1]);
            }
        } else if lo > k {
            assert(!l.keys().contains(lo) && !l.keys().contains(hi));
            lemma_split_is_last_common(*r, lo, hi);
            lemma_split_in_keys(*r, lo, hi);
            let x = r.search_path(lo)->0;
            let y = r.search_path(hi)->0;
            lemma_common_prefix_props(x, y, 0);
            assert(a == seq![k] + x);
            assert(b == seq![k] + y);
            lemma_common_prefix_shift(k, x, y, 0);
            assert(a[0] == b[0]);
            let m = common_prefix_from(x, y, 0);
            if m > 0 {
                assert(a[m as int] == x[m - 1]);
            }
        } else {
            assert(a[0] == k && b[0] == k);
            if lo != k && hi != k {
                assert(!r.keys().contains(lo));
                assert(!l.keys().contains(hi));
                lemma_search_path_found(*l, lo);
                lemma_search_path_found(*r, hi);
                let x = l.search_path(lo)->0;
                let y = r.search_path(hi)->0;
                lemma_search_path_keys(*l, lo);
                lemma_search_path_keys(*r, hi);
                assert(a[1] == x[0]);
                assert(b[1] == y[0]);
                assert(l.keys().contains(x[0]));
                assert(r.keys().contains(y[0]));
            }
            assert(common_prefix_from(a, b, 1) == 1);
        }
    }
}

/// Every key on a descent path is a key of the tree, and the path is not empty.
proof fn lemma_search_path_keys(t: Tree, key: i32)
    requires
        t.search_path(key) is Some,
    ensures
        t.search_path(key)->0.len() > 0,
        forall|i: int| 0 <= i < t.search_path(key)->0.len() ==> t.keys().contains(#[trigger] t.search_path(key)->0[i]),
    decreases t,
{
    if let Tree::Node(l, k, r) = t {
        if key != k {
            let sub = if key < k { *l } else { *r };
            lemma_search_path_keys(sub, key);
            let p = t.search_path(key)->0;
            assert forall|i: int| 0 <= i < p.len() implies t.keys().contains(#[trigger] p[i]) by {
                if i > 0 {
                    assert(p[i] == sub.search_path(key)->0[i - 1]);
                }
            }
        }
    }
}

/// In a binary search tree holding both keys, `lca_bst` and `brute_lca`
/// agree.
pub proof fn lemma_lca_agrees_with_brute(t: Tree, p: i32, q: i32)
    requires
        t.is_bst(),
        t.keys().contains(p),
        t.keys().contains(q),
    ensures
        t.split_key(if p <= q { p } else { q }, if p <= q { q } else { p })
            == match (t.search_path(p), t.search_path(q)) {
                (Some(a), Some(b)) => last_common(a, b),
                _ => None,
            },
        t.split_key(if p <= q { p } else { q }, if p <= q { q } else { p }) is Some,
{
    if p <= q {
        lemma_split_is_last_common(t, p, q);
        lemma_split_in_keys(t, p, q);
    } else {
        lemma_split_is_last_common(t, q, p);
        lemma_split_in_keys(t, q, p);
        lemma_last_common_symmetric(t.search_path(q)->0, t.search_path(p)->0);
    }
}

/// The split node exists when both ends of the range are keys of the tree.
proof fn lemma_split_in_keys(t: Tree, lo: i32, hi: i32)
    requires
        t.is_bst(),
        lo <= hi,
        t.keys().contains(lo),
        t.keys().contains(hi),
    ensures
        t.split_key(lo, hi) is Some,
    decreases t,
{
    if let Tree::Node(l, k, r) = t {
        if hi < k {
            assert(!r.keys().contains(lo) && !r.keys().contains(hi));
            lemma_split_in_keys(*l, lo, hi);
        } else if lo > k {
            assert(!l.keys().contains(lo) && !l.keys().contains(hi));
            lemma_split_in_keys(*r, lo, hi);
        }
    }
}

/// The common prefix from `i` on is symmetric, at least `i` long when `i` is
/// within both sequences, no longer than either, and its entries agree.
proof fn lemma_common_prefix_props(a: Seq<i32>, b: Seq<i32>, i: nat)
    requires
        i <= a.len(),
        i <= b.len(),
    ensures
        common_prefix_from(a, b, i) == common_prefix_from(b, a, i),
        i <= common_prefix_from(a, b, i) <= a.len(),
        common_prefix_from(a, b, i) <= b.len(),
        forall|j: int| i <= j < common_prefix_from(a, b, i) ==> a[j] == b[j],
    decreases a.len() - i,
{
    if i < a.len() && i < b.len() && a[i as int] == b[i as int] {
        lemma_common_prefix_props(a, b, i + 1);
    }
}

/// The last common entry does not depend on the order of the two sequences.
proof fn lemma_last_common_symmetric(a: Seq<i32>, b: Seq<i32>)
    ensures
        last_common(a, b) == last_common(b, a),
{
    lemma_common_prefix_props(a, b, 0);
    let m = common_prefix_from(a, b, 0);
    if m > 0 {
        assert(a[m - 1] == b[m - 1]);
    }
}


/// The split node, when there is one, is a key of the tree within the range.
pub proof fn lemma_split_key_in_range(t: Tree, lo: i32, hi: i32)
    ensures
        t.split_key(lo, hi) matches Some(k) ==> t.keys().contains(k) && lo <= k <= hi,
    decreases t,
{
    if let Tree::Node(l, k, r) = t {
        lemma_split_key_in_range(*l, lo, hi);
        lemma_split_key_in_range(*r, lo, hi);
    }
}

} // verus!
