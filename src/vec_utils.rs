//! Small exercises on vectors of integers and on guesses of a secret.
use vstd::prelude::*;
use vstd::string::StrSliceExecFns;

verus! {

/// `v` with `n` added to every element.
pub fn add_n(v: Vec<i32>, n: i32) -> (r: Vec<i32>)
    requires
        forall|i: int| 0 <= i < v@.len() ==> i32::MIN <= #[trigger] v@[i] + n <= i32::MAX,
    ensures
        r@.len() == v@.len(),
        forall|i: int| 0 <= i < v@.len() ==> r@[i] == v@[i] + n,
{
    let mut r: Vec<i32> = Vec::new();
    let mut i: usize = 0;
    while i < v.len()
        invariant
            i <= v@.len(),
            r@.len() == i,
            forall|k: int| 0 <= k < v@.len() ==> i32::MIN <= #[trigger] v@[k] + n <= i32::MAX,
            forall|k: int| 0 <= k < i ==> r@[k] == v@[k] + n,
        decreases v@.len() - i,
    {
        r.push(v[i] + n);
        i = i + 1;
    }
    r
}

/// Adds `n` to every element of `v` in place.
pub fn add_n_inplace(v: &mut Vec<i32>, n: i32)
    requires
        forall|i: int| 0 <= i < old(v)@.len() ==> i32::MIN <= #[trigger] old(v)@[i] + n <= i32::MAX,
    ensures
        final(v)@.len() == old(v)@.len(),
        forall|i: int| 0 <= i < old(v)@.len() ==> final(v)@[i] == old(v)@[i] + n,
{
    let mut i: usize = 0;
    while i < v.len()
        invariant
            i <= v@.len(),
            v@.len() == old(v)@.len(),
            forall|k: int| 0 <= k < old(v)@.len() ==> i32::MIN <= #[trigger] old(v)@[k] + n <= i32::MAX,
            forall|k: int| 0 <= k < i ==> v@[k] == old(v)@[k] + n,
            forall|k: int| i <= k < v@.len() ==> v@[k] == old(v)@[k],
        decreases v@.len() - i,
    {
        let x = v[i] + n;
        v.set(i, x);
        i = i + 1;
    }
}

/// The elements of `s` with every repeat of an earlier element left out.
pub open spec fn first_occurrences(s: Seq<i32>) -> Seq<i32>
    decreases s.len(),
{
    if s.len() == 0 {
        s
    } else {
        let p = first_occurrences(s.drop_last());
        if s.drop_last().contains(s.last()) {
            p
        } else {
            p.push(s.last())
        }
    }
}

/// An element is kept exactly when it occurred before.
proof fn lemma_first_occurrences_contains(s: Seq<i32>, x: i32)
    ensures
        first_occurrences(s).contains(x) == s.contains(x),
    decreases s.len(),
{
    if s.len() > 0 {
        let init = s.drop_last();
        lemma_first_occurrences_contains(init, x);
        lemma_contains_split(s, x);
        let p = first_occurrences(init);
        lemma_contains_split(p.push(s.last()), x);
        assert(p.push(s.last()).drop_last() =~= p);
        if init.contains(s.last()) && x == s.last() {
            assert(init.contains(x));
        }
    }
}

/// `s` holds `x` exactly when its front part or its last element does.
proof fn lemma_contains_split(s: Seq<i32>, x: i32)
    requires
        s.len() > 0,
    ensures
        s.contains(x) == (s.drop_last().contains(x) || s.last() == x),
{
    let init = s.drop_last();
    if s.contains(x) && s.last() != x {
        let i = choose|i: int| 0 <= i < s.len() && s[i] == x;
        assert(init[i] == x);
    }
    if init.contains(x) {
        let i = choose|i: int| 0 <= i < init.len() && init[i] == x;
        assert(s[i] == x);
    }
    if s.last() == x {
        assert(s[s.len() - 1] == x);
    }
}

/// Removes from `v` every element equal to one before it, keeping the order
/// of the first occurrences.
pub fn dedup(v: &mut Vec<i32>)
    ensures
        final(v)@ == first_occurrences(old(v)@),
{
    let mut kept: Vec<i32> = Vec::new();
    let mut i: usize = 0;
    while i < v.len()
        invariant
            i <= v@.len(),
            v@ == old(v)@,
            kept@ == first_occurrences(v@.take(i as int)),
        decreases v@.len() - i,
    {
        let x = v[i];
        let mut seen = false;
        let mut j: usize = 0;
        while j < kept.len()
            invariant
                j <= kept@.len(),
                seen == kept@.take(j as int).contains(x),
            decreases kept@.len() - j,
        {
            if kept[j] == x {
                seen = true;
            }
            proof {
                let t = kept@.take(j as int + 1);
                if kept@.take(j as int).contains(x) {
                    let w = choose|w: int| 0 <= w < j && kept@.take(j as int)[w] == x;
                    assert(t[w] == x);
                }
                if t.contains(x) && !kept@.take(j as int).contains(x) {
                    let w = choose|w: int| 0 <= w < j + 1 && t[w] == x;
                    if w < j {
                        assert(kept@.take(j as int)[w] == x);
                    }
                }
                if kept@[j as int] == x {
                    assert(t[j as int] == x);
                }
            }
            j = j + 1;
        }
        proof {
            assert(kept@.take(kept@.len() as int) =~= kept@);
            let s = v@.take(i as int + 1);
            assert(s.drop_last() =~= v@.take(i as int));
            lemma_first_occurrences_contains(v@.take(i as int), x);
        }
        if !seen {
            kept.push(x);
        }
        i = i + 1;
    }
    assert(v@.take(v@.len() as int) =~= v@);
    *v = kept;
}

/// Whether a line read from input, without its final character (the line
/// break), is the secret.
pub fn guess_matches(line: &str, secret: &str) -> (r: bool)
    requires
        line@.len() > 0,
    ensures
        r == (line@.drop_last() == secret@),
{
    let n = line.unicode_len();
    let m = secret.unicode_len();
    if n - 1 != m {
        assert(line@.drop_last().len() != secret@.len());
        return false;
    }
    let mut i: usize = 0;
    while i < m
        invariant
            n == line@.len(),
            m == secret@.len(),
            n - 1 == m,
            i <= m,
            forall|k: int| 0 <= k < i ==> line@[k] == secret@[k],
        decreases m - i,
    {
        if line.get_char(i) != secret.get_char(i) {
            assert(line@.drop_last()[i as int] != secret@[i as int]);
            return false;
        }
        i = i + 1;
    }
    assert(line@.drop_last() =~= secret@);
    true
}

} // verus!
