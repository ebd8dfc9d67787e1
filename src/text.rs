//! Character-level helpers on strings.
use vstd::prelude::*;

verus! {

/// `p` is a prefix of `s`.
pub open spec fn has_prefix(s: Seq<char>, p: Seq<char>) -> bool {
    p.len() <= s.len() && s.subrange(0, p.len() as int) =~= p
}

/// Exact comparison of two strings, character by character.
pub fn str_eq(a: &str, b: &str) -> (r: bool)
    ensures
        r == (a@ == b@),
{
    let n = a.unicode_len();
    let m = b.unicode_len();
    if n != m {
        return false;
    }
    let mut i: usize = 0;
    while i < n
        invariant
            n == a@.len(),
            m == b@.len(),
            n == m,
            i <= n,
            forall|j: int| 0 <= j < i ==> a@[j] == b@[j],
        decreases n - i,
    {
        if a.get_char(i) != b.get_char(i) {
            return false;
        }
        i = i + 1;
    }
    proof {
        assert(a@ =~= b@);
    }
    true
}

/// Whether `s` begins with `p`.
pub fn starts_with(s: &str, p: &str) -> (r: bool)
    ensures
        r == has_prefix(s@, p@),
{
    let n = s.unicode_len();
    let m = p.unicode_len();
    if m > n {
        return false;
    }
    let mut i: usize = 0;
    while i < m
        invariant
            n == s@.len(),
            m == p@.len(),
            m <= n,
            i <= m,
            forall|j: int| 0 <= j < i ==> s@[j] == p@[j],
        decreases m - i,
    {
        if s.get_char(i) != p.get_char(i) {
            proof {
                assert(s@.subrange(0, m as int)[i as int] != p@[i as int]);
            }
            return false;
        }
        i = i + 1;
    }
    proof {
        assert(s@.subrange(0, m as int) =~= p@);
    }
    true
}

/// The index of the first pair of `s` whose name is `name`.
pub open spec fn first_named<V>(s: Seq<(String, V)>, name: Seq<char>) -> Option<int>
    decreases s.len(),
{
    if s.len() == 0 {
        None
    } else if s[0].0@ == name {
        Some(0)
    } else {
        match first_named(s.drop_first(), name) {
            Some(i) => Some(i + 1),
            None => None,
        }
    }
}

/// The value paired with the first occurrence of `name` in `s`.
pub open spec fn find_named<V>(s: Seq<(String, V)>, name: Seq<char>) -> Option<V> {
    match first_named(s, name) {
        Some(i) => Some(s[i].1),
        None => None,
    }
}

proof fn lemma_first_named_bounds<V>(s: Seq<(String, V)>, name: Seq<char>)
    ensures
        first_named(s, name) matches Some(i) ==> 0 <= i < s.len() && s[i].0@ == name && forall|
            j: int,
        | 0 <= j < i ==> s[j].0@ != name,
        first_named(s, name) is None ==> forall|j: int| 0 <= j < s.len() ==> s[j].0@ != name,
    decreases s.len(),
{
    if s.len() > 0 {
        lemma_first_named_bounds(s.drop_first(), name);
        assert(forall|j: int| 0 < j < s.len() ==> s[j] == s.drop_first()[j - 1]);
    }
}

proof fn lemma_first_named_unique<V>(s: Seq<(String, V)>, name: Seq<char>, i: int)
    requires
        0 <= i < s.len(),
        s[i].0@ == name,
        forall|j: int| 0 <= j < i ==> s[j].0@ != name,
    ensures
        first_named(s, name) == Some(i),
    decreases s.len(),
{
    if i > 0 {
        assert(forall|j: int| 0 <= j < s.len() - 1 ==> s.drop_first()[j] == s[j + 1]);
        lemma_first_named_unique(s.drop_first(), name, i - 1);
    }
}

/// Finds the first pair of `s` named `name`.
pub fn find_named_index<V>(s: &Vec<(String, V)>, name: &str) -> (r: Option<usize>)
    ensures
        match r {
            Some(i) => first_named(s@, name@) == Some(i as int) && i < s.len(),
            None => first_named(s@, name@) is None,
        },
{
    let mut i: usize = 0;
    while i < s.len()
        invariant
            i <= s.len(),
            forall|j: int| 0 <= j < i ==> s@[j].0@ != name@,
        decreases s.len() - i,
    {
        if str_eq(s[i].0.as_str(), name) {
            proof {
                lemma_first_named_unique(s@, name@, i as int);
            }
            return Some(i);
        }
        i = i + 1;
    }
    proof {
        lemma_first_named_bounds(s@, name@);
        if first_named(s@, name@) is Some {
            let k = first_named(s@, name@)->Some_0;
            assert(s@[k].0@ == name@);
        }
    }
    None
}

proof fn lemma_first_named_update<V>(s: Seq<(String, V)>, name: Seq<char>, i: int, p: (String, V), k: Seq<char>)
    requires
        first_named(s, name) == Some(i),
        p.0@ == name,
    ensures
        first_named(s.update(i, p), k) == first_named(s, k),
    decreases s.len(),
{
    lemma_first_named_bounds(s, name);
    let t = s.update(i, p);
    if i == 0 {
        assert(t.drop_first() =~= s.drop_first());
        assert(t[0].0@ == s[0].0@);
    } else {
        assert(t[0] == s[0]);
        assert(t.drop_first() =~= s.drop_first().update(i - 1, p));
        if s[0].0@ != k {
            assert(first_named(s.drop_first(), name) == Some(i - 1));
            lemma_first_named_update(s.drop_first(), name, i - 1, p, k);
        }
    }
}

proof fn lemma_first_named_push<V>(s: Seq<(String, V)>, p: (String, V), k: Seq<char>)
    ensures
        first_named(s.push(p), k) == (if first_named(s, k) is Some {
            first_named(s, k)
        } else if p.0@ == k {
            Some(s.len() as int)
        } else {
            None
        }),
    decreases s.len(),
{
    let t = s.push(p);
    if s.len() > 0 {
        assert(t[0] == s[0]);
        assert(t.drop_first() =~= s.drop_first().push(p));
        lemma_first_named_push(s.drop_first(), p, k);
        if s[0].0@ != k {
            assert(first_named(t, k) == match first_named(t.drop_first(), k) {
                Some(j) => Some(j + 1),
                None => None::<int>,
            });
            assert(first_named(s, k) == match first_named(s.drop_first(), k) {
                Some(j) => Some(j + 1),
                None => None::<int>,
            });
            assert(s.drop_first().len() + 1 == s.len());
        }
    } else {
        assert(t.drop_first() =~= Seq::<(String, V)>::empty());
        assert(t[0] == p);
    }
}

/// Gives `name` the value `value`: the first pair named `name` is replaced, or a pair is
/// appended when there is none.
pub fn put_named<V>(s: &mut Vec<(String, V)>, name: String, value: V)
    ensures
        find_named(final(s)@, name@) == Some(value),
        forall|k: Seq<char>| k != name@ ==> find_named(final(s)@, k) == find_named(old(s)@, k),
{
    let ghost before = s@;
    let ghost nm = name@;
    match find_named_index(s, name.as_str()) {
        Some(i) => {
            s.set(i, (name, value));
            proof {
                assert forall|k: Seq<char>| k != nm implies find_named(s@, k) == find_named(before, k) by {
                    lemma_first_named_update(before, nm, i as int, s@[i as int], k);
                    lemma_first_named_bounds(before, k);
                    lemma_first_named_bounds(s@, k);
                }
                lemma_first_named_update(before, nm, i as int, s@[i as int], nm);
            }
        },
        None => {
            s.push((name, value));
            proof {
                assert forall|k: Seq<char>| k != nm implies find_named(s@, k) == find_named(before, k) by {
                    lemma_first_named_push(before, s@.last(), k);
                    lemma_first_named_bounds(before, k);
                    lemma_first_named_bounds(s@, k);
                }
                lemma_first_named_push(before, s@.last(), nm);
            }
        },
    }
}

} // verus!
