//! A trie over the characters of a list of words.
use vstd::prelude::*;
use vstd::string::StrSliceExecFns;

verus! {

/// A trie node: the character on the edge that leads to it, whether the
/// path to it spells a word, and its children.
#[derive(Debug, PartialEq, Eq)]
pub struct Trie {
    pub chr: char,
    pub has: bool,
    pub children: Vec<Trie>,
}

/// The position of the first node of `cs` on character `c`; `cs.len()` when
/// there is none.
pub open spec fn first_match(cs: Seq<Trie>, c: char) -> int
    decreases cs.len(),
{
    if cs.len() == 0 {
        0
    } else if cs[0].chr == c {
        0
    } else {
        1 + first_match(cs.drop_first(), c)
    }
}

/// `first_match` is the first position on `c`, or the length when none is.
pub proof fn lemma_first_match(cs: Seq<Trie>, c: char)
    ensures
        0 <= first_match(cs, c) <= cs.len(),
        first_match(cs, c) < cs.len() ==> cs[first_match(cs, c)].chr == c,
        forall|k: int| 0 <= k < first_match(cs, c) ==> (#[trigger] cs[k]).chr != c,
    decreases cs.len(),
{
    if cs.len() > 0 && cs[0].chr != c {
        lemma_first_match(cs.drop_first(), c);
        assert forall|k: int| 0 <= k < first_match(cs, c) implies (#[trigger] cs[k]).chr != c by {
            if k > 0 {
                assert(cs[k] == cs.drop_first()[k - 1]);
            }
        }
    }
}

/// Some word of `strs` is `w`.
pub open spec fn has_word(strs: Seq<&str>, w: Seq<char>) -> bool {
    exists|i: int| 0 <= i < strs.len() && (#[trigger] strs[i])@ == w
}

/// Some word of `strs` starts with `c`.
pub open spec fn has_first(strs: Seq<&str>, c: char) -> bool {
    exists|k: int| 0 <= k < strs.len() && (#[trigger] strs[k])@.len() > 0 && strs[k]@[0] == c
}

/// Some word of `strs` starts with `c` and goes on with `w`.
pub open spec fn has_word_after(strs: Seq<&str>, c: char, w: Seq<char>) -> bool {
    exists|i: int|
        0 <= i < strs.len() && (#[trigger] strs[i])@.len() > 0 && strs[i]@[0] == c
            && strs[i]@.drop_first() == w
}

impl Trie {
    /// The path from this node along `w` ends at a node that holds a word.
    pub open spec fn accepts(self, w: Seq<char>) -> bool
        decreases w.len(),
    {
        if w.len() == 0 {
            self.has
        } else {
            let i = first_match(self.children@, w[0]);
            if 0 <= i < self.children@.len() {
                self.children@[i].accepts(w.drop_first())
            } else {
                false
            }
        }
    }

    /// The trie of the words of `strs`.
    pub fn new(strs: Vec<&str>) -> (r: Trie)
        ensures
            forall|w: Seq<char>| #[trigger] r.accepts(w) == has_word(strs@, w),
    {
        let mut bound: usize = 0;
        let mut i: usize = 0;
        while i < strs.len()
            invariant
                i <= strs@.len(),
                forall|k: int| 0 <= k < i ==> (#[trigger] strs@[k])@.len() <= bound,
            decreases strs@.len() - i,
        {
            let n = strs[i].unicode_len();
            if n > bound {
                bound = n;
            }
            i = i + 1;
        }
        Trie::build(strs, '\0', Ghost(bound as nat))
    }

    /// The node on `chr` whose words are those of `strs`.
    #[verifier::loop_isolation(false)]
    fn build(strs: Vec<&str>, chr: char, Ghost(bound): Ghost<nat>) -> (r: Trie)
        requires
            forall|k: int| 0 <= k < strs@.len() ==> (#[trigger] strs@[k])@.len() <= bound,
        ensures
            r.chr == chr,
            forall|w: Seq<char>| #[trigger] r.accepts(w) == has_word(strs@, w),
        decreases bound,
    {
        let ghost s = strs@;
        // whether the empty word is present
        let mut has = false;
        let mut i: usize = 0;
        while i < strs.len()
            invariant
                s == strs@,
                i <= s.len(),
                has == exists|k: int| 0 <= k < i && (#[trigger] s[k])@.len() == 0,
            decreases s.len() - i,
        {
            if strs[i].unicode_len() == 0 {
                has = true;
            }
            i = i + 1;
        }
        // the first characters, each once, in order of first appearance
        let mut firsts: Vec<char> = Vec::new();
        let mut i: usize = 0;
        while i < strs.len()
            invariant
                s == strs@,
                i <= s.len(),
                forall|a: int, b: int| 0 <= a < b < firsts@.len() ==> firsts@[a] != firsts@[b],
                forall|a: int| 0 <= a < firsts@.len() ==> has_first(s, #[trigger] firsts@[a]),
                forall|k: int| 0 <= k < i && (#[trigger] s[k])@.len() > 0 ==> firsts@.contains(s[k]@[0]),
            decreases s.len() - i,
        {
            let n = strs[i].unicode_len();
            if n > 0 {
                let c = strs[i].get_char(0);
                let mut seen = false;
                let mut j: usize = 0;
                while j < firsts.len()
                    invariant
                        j <= firsts@.len(),
                        seen == exists|a: int| 0 <= a < j && firsts@[a] == c,
                    decreases firsts@.len() - j,
                {
                    if firsts[j] == c {
                        seen = true;
                    }
                    j = j + 1;
                }
                let ghost before = firsts@;
                if !seen {
                    firsts.push(c);
                }
                proof {
                    assert forall|k: int| 0 <= k < i + 1 && (#[trigger] s[k])@.len() > 0 implies firsts@.contains(
                        s[k]@[0],
                    ) by {
                        if k < i {
                            let a = choose|a: int| 0 <= a < before.len() && before[a] == s[k]@[0];
                            assert(firsts@[a] == s[k]@[0]);
                        } else if seen {
                            let a = choose|a: int| 0 <= a < before.len() && before[a] == c;
                            assert(firsts@[a] == c);
                        } else {
                            assert(firsts@[before.len() as int] == c);
                        }
                    }
                    assert forall|a: int| 0 <= a < firsts@.len() implies has_first(s, #[trigger] firsts@[a]) by {
                        if a == before.len() {
                            assert(s[i as int]@.len() > 0 && s[i as int]@[0] == firsts@[a]);
                        } else {
                            assert(firsts@[a] == before[a]);
                        }
                    }
                }
            }
            i = i + 1;
        }
        // one child per first character
        let mut children: Vec<Trie> = Vec::new();
        let mut k: usize = 0;
        while k < firsts.len()
            invariant
                s == strs@,
                forall|q: int| 0 <= q < s.len() ==> (#[trigger] s[q])@.len() <= bound,
                forall|a: int| 0 <= a < firsts@.len() ==> has_first(s, #[trigger] firsts@[a]),
                k <= firsts@.len(),
                children@.len() == k,
                forall|a: int| 0 <= a < k ==> (#[trigger] children@[a]).chr == firsts@[a],
                forall|a: int, w: Seq<char>|
                    0 <= a < k ==> #[trigger] children@[a].accepts(w) == has_word_after(s, firsts@[a], w),
            decreases firsts@.len() - k,
        {
            let c = firsts[k];
            let mut sub: Vec<&str> = Vec::new();
            let mut i: usize = 0;
            while i < strs.len()
                invariant
                    s == strs@,
                    forall|q: int| 0 <= q < s.len() ==> (#[trigger] s[q])@.len() <= bound,
                    i <= s.len(),
                    forall|q: int| 0 <= q < sub@.len() ==> (#[trigger] sub@[q])@.len() + 1 <= bound,
                    forall|w: Seq<char>| #[trigger] has_word(sub@, w) == exists|q: int|
                        0 <= q < i && (#[trigger] s[q])@.len() > 0 && s[q]@[0] == c
                            && s[q]@.drop_first() == w,
                decreases s.len() - i,
            {
                let n = strs[i].unicode_len();
                let ghost before = sub@;
                if n > 0 && strs[i].get_char(0) == c {
                    let rest = strs[i].substring_char(1, n);
                    sub.push(rest);
                    proof {
                        assert(rest@ == s[i as int]@.drop_first());
                    }
                }
                proof {
                    assert(forall|j: int| 0 <= j < before.len() ==> sub@[j] == before[j]);
                    assert forall|w: Seq<char>| #[trigger] has_word(sub@, w) == exists|q: int|
                        0 <= q < i + 1 && (#[trigger] s[q])@.len() > 0 && s[q]@[0] == c
                            && s[q]@.drop_first() == w by {
                        if has_word(sub@, w) {
                            let q = choose|q: int| 0 <= q < sub@.len() && (#[trigger] sub@[q])@ == w;
                            if q < before.len() {
                                assert(before[q] == sub@[q]);
                                assert(has_word(before, w));
                            }
                        }
                        if exists|q: int|
                            0 <= q < i + 1 && (#[trigger] s[q])@.len() > 0 && s[q]@[0] == c
                                && s[q]@.drop_first() == w {
                            let q = choose|q: int|
                                0 <= q < i + 1 && (#[trigger] s[q])@.len() > 0 && s[q]@[0] == c
                                    && s[q]@.drop_first() == w;
                            if q < i {
                                assert(has_word(before, w));
                                let p = choose|p: int| 0 <= p < before.len() && (#[trigger] before[p])@ == w;
                                assert(sub@[p] == before[p]);
                            } else {
                                assert(sub@[before.len() as int]@ == w);
                            }
                        }
                    }
                }
                i = i + 1;
            }
            proof {
                assert(has_first(s, firsts@[k as int]));
                let q = choose|q: int| 0 <= q < s.len() && (#[trigger] s[q])@.len() > 0 && s[q]@[0] == firsts@[k as int];
                assert(s[q]@.len() <= bound);
            }
            let child = Trie::build(sub, c, Ghost((bound - 1) as nat));
            children.push(child);
            proof {
                assert forall|a: int, w: Seq<char>|
                    0 <= a < k + 1 implies #[trigger] children@[a].accepts(w) == has_word_after(s, firsts@[a], w) by {
                    if a == k {
                        assert(children@[a] == child);
                        if has_word_after(s, c, w) {
                            let q = choose|q: int|
                                0 <= q < s.len() && (#[trigger] s[q])@.len() > 0 && s[q]@[0] == c
                                    && s[q]@.drop_first() == w;
                        }
                    }
                }
            }
            k = k + 1;
        }
        let r = Trie { chr, has, children };
        proof {
            assert forall|w: Seq<char>| #[trigger] r.accepts(w) == has_word(s, w) by {
                if w.len() == 0 {
                    if has {
                        let q = choose|q: int| 0 <= q < i && (#[trigger] s[q])@.len() == 0;
                        assert(s[q]@ =~= w);
                    }
                    if has_word(s, w) {
                        let q = choose|q: int| 0 <= q < s.len() && (#[trigger] s[q])@ == w;
                        assert(s[q]@.len() == 0);
                    }
                } else {
                    let c = w[0];
                    let cs = r.children@;
                    lemma_first_match(cs, c);
                    let m = first_match(cs, c);
                    if m < cs.len() {
                        assert(cs[m].accepts(w.drop_first()) == has_word_after(s, firsts@[m], w.drop_first()));
                        if has_word_after(s, c, w.drop_first()) {
                            let q = choose|q: int|
                                0 <= q < s.len() && (#[trigger] s[q])@.len() > 0 && s[q]@[0] == c
                                    && s[q]@.drop_first() == w.drop_first();
                            assert forall|j: int| 0 <= j < w.len() implies s[q]@[j] == w[j] by {
                                if j > 0 {
                                    assert(s[q]@.drop_first()[j - 1] == s[q]@[j]);
                                    assert(w.drop_first()[j - 1] == w[j]);
                                }
                            }
                            assert(s[q]@ =~= w);
                        }
                        if has_word(s, w) {
                            let q = choose|q: int| 0 <= q < s.len() && (#[trigger] s[q])@ == w;
                            assert(s[q]@.drop_first() =~= w.drop_first());
                        }
                    } else {
                        if has_word(s, w) {
                            let q = choose|q: int| 0 <= q < s.len() && (#[trigger] s[q])@ == w;
                            assert(s[q]@.len() > 0);
                            assert(firsts@.contains(s[q]@[0]));
                            let a = choose|a: int| 0 <= a < firsts@.len() && firsts@[a] == c;
                            assert(cs[a].chr == c);
                        }
                    }
                }
            }
        }
        r
    }

    /// Whether the trie holds the word `s`.
    #[verifier::loop_isolation(false)]
    pub fn contains(&self, s: &str) -> (r: bool)
        ensures
            r == self.accepts(s@),
        decreases s@.len(),
    {
        let n = s.unicode_len();
        if n == 0 {
            return self.has;
        }
        let c = s.get_char(0);
        let mut i: usize = 0;
        while i < self.children.len()
            invariant
                n == s@.len(),
                n > 0,
                c == s@[0],
                i <= self.children@.len(),
                forall|k: int| 0 <= k < i ==> (#[trigger] self.children@[k]).chr != c,
            decreases self.children@.len() - i,
        {
            if self.children[i].chr == c {
                proof {
                    lemma_first_match(self.children@, c);
                    let m = first_match(self.children@, c);
                    if m < i {
                        assert(self.children@[m].chr == c);
                    }
                    if m > i {
                        assert(self.children@[i as int].chr != c);
                    }
                }
                let rest = s.substring_char(1, n);
                assert(rest@ =~= s@.drop_first());
                return self.children[i].contains(rest);
            }
            i = i + 1;
        }
        proof {
            lemma_first_match(self.children@, c);
            let m = first_match(self.children@, c);
            if m < self.children@.len() {
                assert(self.children@[m].chr == c);
            }
        }
        false
    }
}

} // verus!
