//! A binary search tree with in-order views, sortedness check, successor
//! search and a one-step rebalancing of the root.
use vstd::multiset::Multiset;
use vstd::prelude::*;
use vstd::string::StrSliceExecFns;

verus! {

/// Lexicographic order of character sequences by code point, which is the
/// order of their UTF-8 encodings.
pub open spec fn chars_lt(a: Seq<char>, b: Seq<char>) -> bool
    decreases a.len(),
{
    if b.len() == 0 {
        false
    } else if a.len() == 0 {
        true
    } else if a[0] < b[0] {
        true
    } else if a[0] > b[0] {
        false
    } else {
        chars_lt(a.drop_first(), b.drop_first())
    }
}

/// `chars_lt` is a strict total order.
pub proof fn lemma_chars_lt_order(a: Seq<char>, b: Seq<char>, c: Seq<char>)
    ensures
        !chars_lt(a, a),
        chars_lt(a, b) ==> !chars_lt(b, a),
        chars_lt(a, b) || chars_lt(b, a) || a == b,
        chars_lt(a, b) && chars_lt(b, c) ==> chars_lt(a, c),
    decreases a.len(),
{
    if a.len() > 0 && b.len() > 0 && c.len() > 0 {
        lemma_chars_lt_order(a.drop_first(), b.drop_first(), c.drop_first());
        if a[0] == b[0] && a.drop_first() == b.drop_first() {
            assert(a =~= seq![a[0]] + a.drop_first());
            assert(b =~= seq![b[0]] + b.drop_first());
        }
    } else if a.len() > 0 && b.len() > 0 {
        lemma_chars_lt_order(a.drop_first(), b.drop_first(), a.drop_first());
        if a[0] == b[0] && a.drop_first() == b.drop_first() {
            assert(a =~= seq![a[0]] + a.drop_first());
            assert(b =~= seq![b[0]] + b.drop_first());
        }
    } else if a.len() > 0 {
        lemma_chars_lt_order(a.drop_first(), a.drop_first(), a.drop_first());
    } else {
        if b.len() == 0 {
            assert(a =~= b);
        }
    }
}

/// "Not above" is transitive: `x <= y <= z` gives `x <= z`.
pub proof fn lemma_le_trans(x: Seq<char>, y: Seq<char>, z: Seq<char>)
    requires
        !chars_lt(y, x),
        !chars_lt(z, y),
    ensures
        !chars_lt(z, x),
{
    lemma_chars_lt_order(x, y, z);
    lemma_chars_lt_order(y, z, x);
    lemma_chars_lt_order(z, x, y);
    lemma_chars_lt_order(x, z, y);
}

/// An element type of the tree: each value has a character sequence, and
/// values are ordered by `chars_lt` on them.
pub trait TreeKey: Sized {
    spec fn key(&self) -> Seq<char>;

    fn key_lt(&self, other: &Self) -> (r: bool)
        ensures
            r == chars_lt(self.key(), other.key()),
    ;

    fn key_text(&self) -> (r: String)
        ensures
            r@ == self.key(),
    ;
}

impl<'a> TreeKey for &'a str {
    open spec fn key(&self) -> Seq<char> {
        (*self)@
    }

    fn key_lt(&self, other: &Self) -> (r: bool) {
        let a: &str = *self;
        let b: &str = *other;
        let n = a.unicode_len();
        let m = b.unicode_len();
        let mut i: usize = 0;
        assert(a@.subrange(0, n as int) =~= a@);
        assert(b@.subrange(0, m as int) =~= b@);
        while i < n && i < m
            invariant
                self.key() == a@,
                other.key() == b@,
                n == a@.len(),
                m == b@.len(),
                i <= n,
                i <= m,
                chars_lt(a@, b@) == chars_lt(a@.subrange(i as int, n as int), b@.subrange(
                    i as int,
                    m as int,
                )),
            decreases n - i,
        {
            let x = a.get_char(i);
            let y = b.get_char(i);
            proof {
                let sa = a@.subrange(i as int, n as int);
                let sb = b@.subrange(i as int, m as int);
                assert(sa[0] == x && sb[0] == y);
                assert(sa.drop_first() =~= a@.subrange(i + 1, n as int));
                assert(sb.drop_first() =~= b@.subrange(i + 1, m as int));
                assert(x < y ==> chars_lt(sa, sb));
                assert(x > y ==> !chars_lt(sa, sb));
                assert(x == y ==> chars_lt(sa, sb) == chars_lt(sa.drop_first(), sb.drop_first()));
            }
            if x < y {
                return true;
            }
            if x > y {
                return false;
            }
            i = i + 1;
        }
        proof {
            let sa = a@.subrange(i as int, n as int);
            let sb = b@.subrange(i as int, m as int);
            assert(sa.len() == 0 || sb.len() == 0);
        }
        i < m
    }

    fn key_text(&self) -> (r: String) {
        let a: &str = *self;
        a.to_owned()
    }
}

/// A binary tree: empty, or a value with a left and a right subtree.
#[derive(PartialEq, Eq, Debug)]
pub enum BinaryTree<T> {
    Leaf,
    Node(T, Box<BinaryTree<T>>, Box<BinaryTree<T>>),
}

/// The keys of `s` never decrease.
pub open spec fn keys_sorted<T: TreeKey>(s: Seq<T>) -> bool {
    forall|i: int, j: int| 0 <= i < j < s.len() ==> !chars_lt(s[j].key(), s[i].key())
}

/// No value of `s` is above `v`.
pub open spec fn all_le<T: TreeKey>(s: Seq<T>, v: T) -> bool {
    forall|i: int| 0 <= i < s.len() ==> !chars_lt(v.key(), #[trigger] s[i].key())
}

/// No value of `s` is below `v`.
pub open spec fn all_ge<T: TreeKey>(s: Seq<T>, v: T) -> bool {
    forall|i: int| 0 <= i < s.len() ==> !chars_lt(#[trigger] s[i].key(), v.key())
}

/// A sequence split around a value is in order exactly when both sides are,
/// and the value lies between them.
pub proof fn lemma_sorted_split<T: TreeKey>(l: Seq<T>, v: T, r: Seq<T>)
    ensures
        keys_sorted(l + seq![v] + r) == (keys_sorted(l) && keys_sorted(r) && all_le(l, v) && all_ge(
            r,
            v,
        )),
{
    let s = l + seq![v] + r;
    let n = l.len() as int;
    assert forall|i: int| 0 <= i < l.len() implies s[i] == l[i] by {}
    assert forall|i: int| 0 <= i < r.len() implies s[n + 1 + i] == r[i] by {}
    assert(s[n] == v);
    if keys_sorted(s) {
        assert forall|i: int, j: int| 0 <= i < j < l.len() implies !chars_lt(l[j].key(), l[i].key()) by {
            assert(s[i] == l[i] && s[j] == l[j]);
        }
        assert forall|i: int, j: int| 0 <= i < j < r.len() implies !chars_lt(r[j].key(), r[i].key()) by {
            assert(s[n + 1 + i] == r[i] && s[n + 1 + j] == r[j]);
        }
        assert forall|i: int| 0 <= i < l.len() implies !chars_lt(v.key(), #[trigger] l[i].key()) by {
            assert(s[i] == l[i]);
        }
        assert forall|i: int| 0 <= i < r.len() implies !chars_lt(#[trigger] r[i].key(), v.key()) by {
            assert(s[n + 1 + i] == r[i]);
        }
    }
    if keys_sorted(l) && keys_sorted(r) && all_le(l, v) && all_ge(r, v) {
        assert forall|i: int, j: int| 0 <= i < j < s.len() implies !chars_lt(s[j].key(), s[i].key()) by {
            if j < n {
                assert(s[i] == l[i] && s[j] == l[j]);
            } else if j == n {
                assert(s[i] == l[i]);
                assert(!chars_lt(v.key(), l[i].key()));
            } else if i > n {
                assert(s[i] == r[i - n - 1] && s[j] == r[j - n - 1]);
            } else if i == n {
                assert(s[j] == r[j - n - 1]);
                assert(!chars_lt(r[j - n - 1].key(), v.key()));
            } else {
                assert(s[i] == l[i] && s[j] == r[j - n - 1]);
                assert(!chars_lt(v.key(), l[i].key()));
                assert(!chars_lt(r[j - n - 1].key(), v.key()));
                lemma_le_trans(s[i].key(), v.key(), s[j].key());
            }
        }
    }
}

/// The drawing before a node at depth `level.len()`, one segment per level:
/// a vertical bar or blanks on the levels above, and a branch or an end on
/// the last one, depending on whether the node is a first (`2`) or second
/// (`1`) child there.
pub open spec fn level_prefix(level: Seq<usize>, k: int) -> Seq<char>
    decreases k,
{
    if k <= 0 {
        Seq::empty()
    } else {
        let last = k - 1 == level.len() - 1;
        let seg = if level[k - 1] == 1 {
            if !last { seq![' ', ' ', ' '] } else { seq![' ', '\u{2514}', '\u{2500}'] }
        } else {
            if !last { seq![' ', '\u{2502}', ' '] } else { seq![' ', '\u{251c}', '\u{2500}'] }
        };
        level_prefix(level, k - 1) + seg
    }
}

impl<T: TreeKey> BinaryTree<T> {
    /// The tree drawn line by line, each node below its parent: the drawing
    /// of `level`, then the value and a line break (a bare line break for an
    /// empty tree), then the left and the right subtree one level deeper.
    pub open spec fn drawing(self, level: Seq<usize>) -> Seq<char>
        decreases self,
    {
        level_prefix(level, level.len() as int) + match self {
            BinaryTree::Node(v, l, r) => seq![' '] + v.key() + seq!['\n'] + (*l).drawing(level.push(2))
                + (*r).drawing(level.push(1)),
            BinaryTree::Leaf => seq!['\n'],
        }
    }

    /// The values in order: left subtree, value, right subtree.
    pub open spec fn inorder(self) -> Seq<T>
        decreases self,
    {
        match self {
            BinaryTree::Leaf => Seq::empty(),
            BinaryTree::Node(v, l, r) => (*l).inorder() + seq![v] + (*r).inorder(),
        }
    }

    /// The number of nodes on the longest path from the root.
    pub open spec fn height(self) -> nat
        decreases self,
    {
        match self {
            BinaryTree::Leaf => 0,
            BinaryTree::Node(_, l, r) => 1 + vstd::math::max((*l).height() as int, (*r).height() as int) as nat,
        }
    }

    /// The values in order.
    pub fn to_vec(&self) -> (r: Vec<&T>)
        ensures
            r@.len() == self.inorder().len(),
            forall|i: int| 0 <= i < r@.len() ==> *r@[i] == self.inorder()[i],
        decreases self,
    {
        match self {
            BinaryTree::Leaf => Vec::new(),
            BinaryTree::Node(v, l, r) => {
                let mut out = l.to_vec();
                out.push(v);
                let mut right = r.to_vec();
                let ghost rv = right@;
                out.append(&mut right);
                proof {
                    let li = (**l).inorder();
                    let ri = (**r).inorder();
                    assert(self.inorder() == li + seq![*v] + ri);
                    assert forall|i: int| 0 <= i < out@.len() implies *out@[i] == self.inorder()[i] by {
                        if i < li.len() {
                        } else if i == li.len() {
                        } else {
                            assert(out@[i] == rv[i - li.len() - 1]);
                        }
                    }
                }
                out
            },
        }
    }

    /// Whether the values, read in order, never decrease.
    pub fn sorted(&self) -> (r: bool)
        ensures
            r == keys_sorted(self.inorder()),
    {
        let v = self.to_vec();
        let ghost s = self.inorder();
        let n = v.len();
        if n == 0 {
            return true;
        }
        let mut i: usize = 1;
        while i < n
            invariant
                n == v@.len(),
                n == s.len(),
                s == self.inorder(),
                1 <= i <= n,
                forall|k: int| 0 <= k < n ==> *v@[k] == s[k],
                forall|a: int, b: int| 0 <= a < b < i ==> !chars_lt(s[b].key(), s[a].key()),
            decreases n - i,
        {
            let lt = v[i].key_lt(v[i - 1]);
            proof {
                assert(*v@[i as int] == s[i as int] && *v@[i - 1] == s[i - 1]);
                assert(lt == chars_lt(s[i as int].key(), s[i - 1].key()));
            }
            if lt {
                proof {
                    let a = i - 1;
                    let b = i as int;
                    assert(0 <= a < b < s.len() && chars_lt(s[b].key(), s[a].key()));
                    assert(!keys_sorted(s));
                }
                return false;
            }
            proof {
                assert forall|a: int, b: int| 0 <= a < b < i + 1 implies !chars_lt(
                    s[b].key(),
                    s[a].key(),
                ) by {
                    if b == i && a < i - 1 {
                        assert(!chars_lt(s[i - 1].key(), s[a].key()));
                        lemma_le_trans(s[a].key(), s[i - 1].key(), s[b].key());
                    }
                }
            }
            i = i + 1;
        }
        true
    }

    /// The tree with `t` added as a new leaf: left of every value above it,
    /// right of the others.
    pub fn inserted(self, t: T) -> (r: Self)
        ensures
            r.inorder().to_multiset() == self.inorder().to_multiset().insert(t),
            forall|x: T| #[trigger] r.inorder().contains(x) == (self.inorder().contains(x) || x == t),
            keys_sorted(self.inorder()) ==> keys_sorted(r.inorder()),
        decreases self,
    {
        match self {
            BinaryTree::Leaf => {
                let r = BinaryTree::Node(t, Box::new(BinaryTree::Leaf), Box::new(BinaryTree::Leaf));
                proof {
                    assert(r.inorder() =~= seq![t]);
                    assert(self.inorder() =~= Seq::<T>::empty());
                    lemma_concat_multiset(Seq::<T>::empty(), t, Seq::<T>::empty());
                    assert(Seq::<T>::empty() + seq![t] + Seq::<T>::empty() =~= seq![t]);
                    assert(Seq::<T>::empty().to_multiset() =~= Multiset::empty()) by {
                        broadcast use vstd::seq_lib::group_to_multiset_ensures;
                    }
                    assert forall|x: T| #[trigger] r.inorder().contains(x) == (x == t) by {
                        if x == t {
                            assert(r.inorder()[0] == t);
                        }
                    }
                }
                r
            },
            BinaryTree::Node(v, l, r) => {
                let ghost li = (*l).inorder();
                let ghost ri = (*r).inorder();
                if t.key_lt(&v) {
                    let nl = (*l).inserted(t);
                    let ghost nli = nl.inorder();
                    let out = BinaryTree::Node(v, Box::new(nl), r);
                    proof {
                        lemma_sorted_split(li, v, ri);
                        lemma_sorted_split(nli, v, ri);
                        assert(out.inorder() == nli + seq![v] + ri);
                        lemma_concat_contains(li, v, ri);
                        lemma_concat_contains(nli, v, ri);
                        lemma_concat_multiset(li, v, ri);
                        lemma_concat_multiset(nli, v, ri);
                        assert(out.inorder().to_multiset() =~= self.inorder().to_multiset().insert(t));
                        if keys_sorted(self.inorder()) {
                            assert forall|i: int| 0 <= i < nli.len() implies !chars_lt(
                                v.key(),
                                #[trigger] nli[i].key(),
                            ) by {
                                assert(nli.contains(nli[i]));
                                if nli[i] != t {
                                    let k = choose|k: int| 0 <= k < li.len() && li[k] == nli[i];
                                } else {
                                    lemma_chars_lt_order(t.key(), v.key(), t.key());
                                }
                            }
                        }
                    }
                    out
                } else {
                    let nr = (*r).inserted(t);
                    let ghost nri = nr.inorder();
                    let out = BinaryTree::Node(v, l, Box::new(nr));
                    proof {
                        lemma_sorted_split(li, v, ri);
                        lemma_sorted_split(li, v, nri);
                        assert(out.inorder() == li + seq![v] + nri);
                        lemma_concat_contains(li, v, ri);
                        lemma_concat_contains(li, v, nri);
                        lemma_concat_multiset(li, v, ri);
                        lemma_concat_multiset(li, v, nri);
                        assert(out.inorder().to_multiset() =~= self.inorder().to_multiset().insert(t));
                        if keys_sorted(self.inorder()) {
                            assert forall|i: int| 0 <= i < nri.len() implies !chars_lt(
                                #[trigger] nri[i].key(),
                                v.key(),
                            ) by {
                                assert(nri.contains(nri[i]));
                                if nri[i] != t {
                                    let k = choose|k: int| 0 <= k < ri.len() && ri[k] == nri[i];
                                }
                            }
                        }
                    }
                    out
                }
            },
        }
    }

    /// Adds `t` as a new leaf, keeping a sorted tree sorted.
    pub fn insert(&mut self, t: T)
        ensures
            final(self).inorder().to_multiset() == old(self).inorder().to_multiset().insert(t),
            forall|x: T| #[trigger] final(self).inorder().contains(x) == (old(self).inorder().contains(x) || x == t),
            keys_sorted(old(self).inorder()) ==> keys_sorted(final(self).inorder()),
    {
        let mut tree = BinaryTree::Leaf;
        std::mem::swap(self, &mut tree);
        *self = tree.inserted(t);
    }

    /// The least value not below `query`, found by descending from the root.
    pub fn search(&self, query: &T) -> (r: Option<&T>)
        ensures
            match r {
                Some(x) => self.inorder().contains(*x) && !chars_lt(x.key(), query.key()),
                None => true,
            },
            keys_sorted(self.inorder()) ==> match r {
                Some(x) => forall|i: int|
                    0 <= i < self.inorder().len() && !chars_lt(
                        #[trigger] self.inorder()[i].key(),
                        query.key(),
                    ) ==> !chars_lt(self.inorder()[i].key(), x.key()),
                None => forall|i: int|
                    0 <= i < self.inorder().len() ==> chars_lt(
                        #[trigger] self.inorder()[i].key(),
                        query.key(),
                    ),
            },
        decreases self,
    {
        match self {
            BinaryTree::Leaf => None,
            BinaryTree::Node(v, l, r) => {
                let ghost li = (**l).inorder();
                let ghost ri = (**r).inorder();
                let ghost s = self.inorder();
                let ghost n = li.len() as int;
                proof {
                    assert(s == li + seq![*v] + ri);
                    lemma_concat_contains(li, *v, ri);
                    lemma_sorted_split(li, *v, ri);
                    assert forall|i: int| 0 <= i < li.len() implies s[i] == li[i] by {}
                    assert forall|i: int| 0 <= i < ri.len() implies s[n + 1 + i] == ri[i] by {}
                    assert(s[n] == *v);
                    lemma_chars_lt_order(v.key(), query.key(), v.key());
                }
                if v.key_lt(query) {
                    let out = r.search(query);
                    proof {
                        if keys_sorted(s) {
                            assert forall|i: int|
                                0 <= i < s.len() && !chars_lt(#[trigger] s[i].key(), query.key())
                                    implies match out {
                                Some(x) => !chars_lt(s[i].key(), x.key()),
                                None => false,
                            } by {
                                if i < n {
                                    assert(!chars_lt(v.key(), li[i].key()));
                                    lemma_le_trans(query.key(), li[i].key(), v.key());
                                } else if i > n {
                                    assert(s[i] == ri[i - n - 1]);
                                }
                            }
                        }
                    }
                    out
                } else {
                    let out = l.search(query);
                    match out {
                        Some(x) => {
                            proof {
                                if keys_sorted(s) {
                                    assert(li.contains(*x));
                                    let k = choose|k: int| 0 <= k < li.len() && li[k] == *x;
                                    assert(!chars_lt(v.key(), li[k].key()));
                                    assert forall|i: int|
                                        0 <= i < s.len() && !chars_lt(#[trigger] s[i].key(), query.key())
                                            implies !chars_lt(s[i].key(), x.key()) by {
                                        if i < n {
                                            assert(s[i] == li[i]);
                                        } else if i > n {
                                            assert(s[i] == ri[i - n - 1]);
                                            assert(!chars_lt(ri[i - n - 1].key(), v.key()));
                                            lemma_le_trans(x.key(), v.key(), s[i].key());
                                        }
                                    }
                                }
                            }
                            Some(x)
                        },
                        None => {
                            proof {
                                if keys_sorted(s) {
                                    assert forall|i: int|
                                        0 <= i < s.len() && !chars_lt(#[trigger] s[i].key(), query.key())
                                            implies !chars_lt(s[i].key(), v.key()) by {
                                        if i < n {
                                            assert(s[i] == li[i]);
                                        } else if i > n {
                                            assert(s[i] == ri[i - n - 1]);
                                            assert(!chars_lt(ri[i - n - 1].key(), v.key()));
                                        }
                                    }
                                }
                            }
                            Some(v)
                        },
                    }
                }
            },
        }
    }

    /// Right rotation at the root: the left child becomes the root.
    pub open spec fn rotated_right(self) -> Self {
        match self {
            BinaryTree::Node(v, l, r) => match *l {
                BinaryTree::Node(lv, ll, lr) => BinaryTree::Node(
                    lv,
                    ll,
                    Box::new(BinaryTree::Node(v, lr, r)),
                ),
                BinaryTree::Leaf => self,
            },
            BinaryTree::Leaf => self,
        }
    }

    /// Left rotation at the root: the right child becomes the root.
    pub open spec fn rotated_left(self) -> Self {
        match self {
            BinaryTree::Node(v, l, r) => match *r {
                BinaryTree::Node(rv, rl, rr) => BinaryTree::Node(
                    rv,
                    Box::new(BinaryTree::Node(v, l, rl)),
                    rr,
                ),
                BinaryTree::Leaf => self,
            },
            BinaryTree::Leaf => self,
        }
    }

    /// One rebalancing step at the root. When the left subtree is the
    /// higher one, a right rotation if its own left side is strictly higher,
    /// else a left rotation of the left subtree followed by a right rotation
    /// (when that subtree has a right child); symmetrically on the right.
    /// Subtrees of equal height leave the tree as it is.
    pub open spec fn rebalanced(self) -> Self {
        match self {
            BinaryTree::Node(v, l, r) => if (*l).height() > (*r).height() {
                match *l {
                    BinaryTree::Node(_, ll, lr) => if (*ll).height() > (*lr).height() {
                        self.rotated_right()
                    } else if *lr is Leaf {
                        self
                    } else {
                        BinaryTree::Node(v, Box::new((*l).rotated_left()), r).rotated_right()
                    },
                    BinaryTree::Leaf => self,
                }
            } else if (*r).height() > (*l).height() {
                match *r {
                    BinaryTree::Node(_, rl, rr) => if (*rr).height() > (*rl).height() {
                        self.rotated_left()
                    } else if *rl is Leaf {
                        self
                    } else {
                        BinaryTree::Node(v, l, Box::new((*r).rotated_right())).rotated_left()
                    },
                    BinaryTree::Leaf => self,
                }
            } else {
                self
            },
            BinaryTree::Leaf => self,
        }
    }

    /// A tree is at most as high as it has values.
    pub proof fn lemma_height_le_len(self)
        ensures
            self.height() <= self.inorder().len(),
        decreases self,
    {
        match self {
            BinaryTree::Node(_, l, r) => {
                (*l).lemma_height_le_len();
                (*r).lemma_height_le_len();
            },
            BinaryTree::Leaf => {},
        }
    }

    /// Rotations keep the values and their order.
    pub proof fn lemma_rotations_keep_inorder(self)
        ensures
            self.rotated_right().inorder() == self.inorder(),
            self.rotated_left().inorder() == self.inorder(),
    {
        match self {
            BinaryTree::Node(v, l, r) => {
                match *l {
                    BinaryTree::Node(lv, ll, lr) => {
                        let inner = BinaryTree::Node(v, lr, r);
                        assert(inner.inorder() == (*lr).inorder() + seq![v] + (*r).inorder());
                        assert((*l).inorder() == (*ll).inorder() + seq![lv] + (*lr).inorder());
                        assert(self.rotated_right().inorder() =~= self.inorder());
                    },
                    BinaryTree::Leaf => {},
                }
                match *r {
                    BinaryTree::Node(rv, rl, rr) => {
                        let inner = BinaryTree::Node(v, l, rl);
                        assert(inner.inorder() == (*l).inorder() + seq![v] + (*rl).inorder());
                        assert((*r).inorder() == (*rl).inorder() + seq![rv] + (*rr).inorder());
                        assert(self.rotated_left().inorder() =~= self.inorder());
                    },
                    BinaryTree::Leaf => {},
                }
            },
            BinaryTree::Leaf => {},
        }
    }

    /// The number of nodes on the longest path from the root.
    fn height_of(&self) -> (h: usize)
        requires
            self.height() <= usize::MAX,
        ensures
            h == self.height(),
        decreases self,
    {
        match self {
            BinaryTree::Leaf => 0,
            BinaryTree::Node(_, l, r) => {
                let a = l.height_of();
                let b = r.height_of();
                if a > b {
                    a + 1
                } else {
                    b + 1
                }
            },
        }
    }

    fn into_rotated_right(self) -> (r: Self)
        ensures
            r == self.rotated_right(),
    {
        match self {
            BinaryTree::Node(v, l, r) => match *l {
                BinaryTree::Node(lv, ll, lr) => BinaryTree::Node(
                    lv,
                    ll,
                    Box::new(BinaryTree::Node(v, lr, r)),
                ),
                BinaryTree::Leaf => BinaryTree::Node(v, Box::new(BinaryTree::Leaf), r),
            },
            BinaryTree::Leaf => BinaryTree::Leaf,
        }
    }

    fn into_rotated_left(self) -> (r: Self)
        ensures
            r == self.rotated_left(),
    {
        match self {
            BinaryTree::Node(v, l, r) => match *r {
                BinaryTree::Node(rv, rl, rr) => BinaryTree::Node(
                    rv,
                    Box::new(BinaryTree::Node(v, l, rl)),
                    rr,
                ),
                BinaryTree::Leaf => BinaryTree::Node(v, l, Box::new(BinaryTree::Leaf)),
            },
            BinaryTree::Leaf => BinaryTree::Leaf,
        }
    }

    /// Performs one rebalancing step at the root (see `rebalanced`); the
    /// values and their order stay as they were.
    pub fn rebalance(&mut self)
        requires
            old(self).inorder().len() <= usize::MAX,
        ensures
            *final(self) == old(self).rebalanced(),
            final(self).inorder() == old(self).inorder(),
    {
        let mut tree = BinaryTree::Leaf;
        std::mem::swap(self, &mut tree);
        proof {
            tree.lemma_height_le_len();
            tree.lemma_rotations_keep_inorder();
        }
        let out = match tree {
            BinaryTree::Leaf => BinaryTree::Leaf,
            BinaryTree::Node(v, l, r) => {
                let hl = l.height_of();
                let hr = r.height_of();
                if hl > hr {
                    let lh = match &*l {
                        BinaryTree::Node(_, ll, lr) => Some((ll.height_of(), lr.height_of(), lr.is_leaf())),
                        BinaryTree::Leaf => None,
                    };
                    match lh {
                        Some((a, b, lr_leaf)) => {
                            if a > b {
                                BinaryTree::Node(v, l, r).into_rotated_right()
                            } else if lr_leaf {
                                BinaryTree::Node(v, l, r)
                            } else {
                                proof {
                                    (*l).lemma_rotations_keep_inorder();
                                    BinaryTree::Node(v, Box::new((*l).rotated_left()), r).lemma_rotations_keep_inorder();
                                    assert(BinaryTree::Node(v, Box::new((*l).rotated_left()), r).inorder() =~= BinaryTree::Node(v, l, r).inorder());
                                }
                                let nl = (*l).into_rotated_left();
                                BinaryTree::Node(v, Box::new(nl), r).into_rotated_right()
                            }
                        },
                        None => BinaryTree::Node(v, l, r),
                    }
                } else if hr > hl {
                    let rh = match &*r {
                        BinaryTree::Node(_, rl, rr) => Some((rl.height_of(), rr.height_of(), rl.is_leaf())),
                        BinaryTree::Leaf => None,
                    };
                    match rh {
                        Some((a, b, rl_leaf)) => {
                            if b > a {
                                BinaryTree::Node(v, l, r).into_rotated_left()
                            } else if rl_leaf {
                                BinaryTree::Node(v, l, r)
                            } else {
                                proof {
                                    (*r).lemma_rotations_keep_inorder();
                                    BinaryTree::Node(v, l, Box::new((*r).rotated_right())).lemma_rotations_keep_inorder();
                                    assert(BinaryTree::Node(v, l, Box::new((*r).rotated_right())).inorder() =~= BinaryTree::Node(v, l, r).inorder());
                                }
                                let nr = (*r).into_rotated_right();
                                BinaryTree::Node(v, l, Box::new(nr)).into_rotated_left()
                            }
                        },
                        None => BinaryTree::Node(v, l, r),
                    }
                } else {
                    BinaryTree::Node(v, l, r)
                }
            },
        };
        *self = out;
    }

    /// Whether the tree is empty.
    fn is_leaf(&self) -> (r: bool)
        ensures
            r == (*self is Leaf),
    {
        match self {
            BinaryTree::Leaf => true,
            BinaryTree::Node(..) => false,
        }
    }

    /// Draws the tree below the levels `level` (see `drawing`).
    fn fmt_levels(&self, level: Vec<usize>) -> (r: String)
        ensures
            r@ == self.drawing(level@),
        decreases self,
    {
        let mut out = String::new();
        let maxpos = level.len();
        let mut pos: usize = 0;
        while pos < maxpos
            invariant
                maxpos == level@.len(),
                pos <= maxpos,
                out@ == level_prefix(level@, pos as int),
            decreases maxpos - pos,
        {
            let last_row = pos == maxpos - 1;
            proof {
                reveal_strlit("   ");
                reveal_strlit(" \u{2514}\u{2500}");
                reveal_strlit(" \u{2502} ");
                reveal_strlit(" \u{251c}\u{2500}");
            }
            if level[pos] == 1 {
                if !last_row {
                    out.append("   ");
                } else {
                    out.append(" \u{2514}\u{2500}");
                }
            } else {
                if !last_row {
                    out.append(" \u{2502} ");
                } else {
                    out.append(" \u{251c}\u{2500}");
                }
            }
            pos = pos + 1;
        }
        proof {
            reveal_strlit(" ");
            reveal_strlit("\n");
        }
        match self {
            BinaryTree::Node(v, l, r) => {
                out.append(" ");
                let text = v.key_text();
                out.append(text.as_str());
                out.append("\n");
                let mut left_level = level.clone();
                left_level.push(2);
                let mut right_level = level;
                right_level.push(1);
                proof {
                    assert(left_level@ =~= level@.push(2));
                }
                let a = l.fmt_levels(left_level);
                out.append(a.as_str());
                let b = r.fmt_levels(right_level);
                out.append(b.as_str());
            },
            BinaryTree::Leaf => {
                out.append("\n");
            },
        }
        out
    }

    /// The tree drawn as text, one node per line, from the root down.
    pub fn to_ascii_tree(&self) -> (r: String)
        ensures
            r@ == self.drawing(Seq::empty()),
    {
        let level: Vec<usize> = Vec::new();
        self.fmt_levels(level)
    }

    /// The number of values in the tree.
    pub fn len(&self) -> (r: usize)
        requires
            self.inorder().len() <= usize::MAX,
        ensures
            r == self.inorder().len(),
        decreases self,
    {
        match self {
            BinaryTree::Leaf => 0,
            BinaryTree::Node(_, l, r) => l.len() + 1 + r.len(),
        }
    }
}

/// Membership in a sequence split around a value.
pub proof fn lemma_concat_contains<T>(l: Seq<T>, v: T, r: Seq<T>)
    ensures
        forall|x: T| #[trigger] (l + seq![v] + r).contains(x) == (l.contains(x) || x == v || r.contains(x)),
{
    let s = l + seq![v] + r;
    let n = l.len() as int;
    assert forall|x: T| #[trigger] s.contains(x) == (l.contains(x) || x == v || r.contains(x)) by {
        if s.contains(x) {
            let i = choose|i: int| 0 <= i < s.len() && s[i] == x;
            if i < n {
                assert(l[i] == x);
            } else if i > n {
                assert(r[i - n - 1] == x);
            }
        }
        if l.contains(x) {
            let i = choose|i: int| 0 <= i < l.len() && l[i] == x;
            assert(s[i] == x);
        }
        if r.contains(x) {
            let i = choose|i: int| 0 <= i < r.len() && r[i] == x;
            assert(s[n + 1 + i] == x);
        }
        if x == v {
            assert(s[n] == x);
        }
    }
}

/// The multiset of a sequence split around a value.
pub proof fn lemma_concat_multiset<T>(l: Seq<T>, v: T, r: Seq<T>)
    ensures
        (l + seq![v] + r).to_multiset() == l.to_multiset().insert(v).add(r.to_multiset()),
{
    broadcast use vstd::seq_lib::group_to_multiset_ensures;
    vstd::seq_lib::lemma_multiset_commutative(l + seq![v], r);
    vstd::seq_lib::lemma_multiset_commutative(l, seq![v]);
    assert(seq![v].to_multiset() =~= Multiset::empty().insert(v));
    assert(l.to_multiset().add(Multiset::empty().insert(v)) =~= l.to_multiset().insert(v));
}

} // verus!
