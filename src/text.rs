//! Text helpers: equality, lexicographic order, sorted sets of strings.
use vstd::prelude::*;
use vstd::string::*;

verus! {

/// Relies on `String::push`: appends one character at the end.
#[verifier::external_body]
pub(crate) fn push_char(s: &mut String, c: char)
    ensures
        final(s)@ == old(s)@.push(c),
{
    s.push(c)
}

/// Whether two texts hold the same characters.
pub fn same_text(a: &str, b: &str) -> (r: bool)
    ensures
        r == (a@ == b@),
{
    let n = a.unicode_len();
    let m = b.unicode_len();
    if n != m {
        return false;
    }
    let mut i: usize = 0;
    while i < n
        invariant
            n == a@.len(),
            m == b@.len(),
            n == m,
            i <= n,
            forall|k: int| 0 <= k < i ==> a@[k] == b@[k],
        decreases n - i,
    {
        if a.get_char(i) != b.get_char(i) {
            return false;
        }
        i = i + 1;
    }
    assert(a@ =~= b@);
    true
}

/// Lexicographic order on characters (that of `str`'s `Ord`).
pub open spec fn text_lt(a: Seq<char>, b: Seq<char>) -> bool
    decreases a.len(),
{
    if a.len() == 0 {
        b.len() > 0
    } else if b.len() == 0 {
        false
    } else if a[0] != b[0] {
        a[0] < b[0]
    } else {
        text_lt(a.drop_first(), b.drop_first())
    }
}

pub proof fn lemma_text_lt_irreflexive(a: Seq<char>)
    ensures
        !text_lt(a, a),
    decreases a.len(),
{
    if a.len() > 0 {
        lemma_text_lt_irreflexive(a.drop_first());
    }
}

pub proof fn lemma_text_lt_transitive(a: Seq<char>, b: Seq<char>, c: Seq<char>)
    requires
        text_lt(a, b),
        text_lt(b, c),
    ensures
        text_lt(a, c),
    decreases a.len(),
{
    if a.len() > 0 && b.len() > 0 && c.len() > 0 && a[0] == b[0] && b[0] == c[0] {
        lemma_text_lt_transitive(a.drop_first(), b.drop_first(), c.drop_first());
    }
}

pub proof fn lemma_text_lt_total(a: Seq<char>, b: Seq<char>)
    requires
        a != b,
    ensures
        text_lt(a, b) || text_lt(b, a),
    decreases a.len(),
{
    if a.len() > 0 && b.len() > 0 {
        if a[0] == b[0] {
            if a.drop_first() == b.drop_first() {
                assert(a =~= seq![a[0]] + a.drop_first());
                assert(b =~= seq![b[0]] + b.drop_first());
            }
            lemma_text_lt_total(a.drop_first(), b.drop_first());
        }
    } else if a.len() == 0 && b.len() == 0 {
        assert(a =~= b);
    }
}

/// Whether `a` comes strictly before `b`.
pub fn text_less(a: &str, b: &str) -> (r: bool)
    ensures
        r == text_lt(a@, b@),
{
    let n = a.unicode_len();
    let m = b.unicode_len();
    let mut i: usize = 0;
    assert(a@.subrange(0, n as int) =~= a@);
    assert(b@.subrange(0, m as int) =~= b@);
    while i < n && i < m
        invariant
            n == a@.len(),
            m == b@.len(),
            i <= n,
            i <= m,
            text_lt(a@, b@) == text_lt(a@.subrange(i as int, n as int), b@.subrange(i as int, m as int)),
        decreases n - i,
    {
        let x = a.get_char(i);
        let y = b.get_char(i);
        let ghost sa = a@.subrange(i as int, n as int);
        let ghost sb = b@.subrange(i as int, m as int);
        assert(sa[0] == x && sb[0] == y);
        if x != y {
            return x < y;
        }
        assert(sa.drop_first() =~= a@.subrange(i + 1, n as int));
        assert(sb.drop_first() =~= b@.subrange(i + 1, m as int));
        i = i + 1;
    }
    i < m
}

/// The texts of `v`, in strictly increasing order (hence without repeats).
pub open spec fn strictly_sorted(v: Seq<String>) -> bool {
    forall|i: int, j: int| 0 <= i < j < v.len() ==> text_lt(#[trigger] v[i]@, #[trigger] v[j]@)
}

/// The texts that `v` holds.
pub open spec fn texts_of(v: Seq<String>) -> Set<Seq<char>> {
    Set::new(|t: Seq<char>| exists|i: int| 0 <= i < v.len() && #[trigger] v[i]@ == t)
}

/// Adds `x` to the sorted set `v`, keeping it sorted; a text already there is not added again.
pub fn insert_sorted(v: &mut Vec<String>, x: String)
    requires
        strictly_sorted(old(v)@),
    ensures
        strictly_sorted(final(v)@),
        texts_of(final(v)@) == texts_of(old(v)@).insert(x@),
{
    let mut i: usize = 0;
    while i < v.len()
        invariant
            strictly_sorted(v@),
            i <= v.len(),
            forall|k: int| 0 <= k < i ==> text_lt(#[trigger] v@[k]@, x@),
        ensures
            i <= v.len(),
            forall|k: int| 0 <= k < i ==> text_lt(#[trigger] v@[k]@, x@),
            i < v.len() ==> !text_lt(v@[i as int]@, x@),
        decreases v.len() - i,
    {
        if !text_less(v[i].as_str(), x.as_str()) {
            break;
        }
        i = i + 1;
    }
    let ghost pre = v@;
    if i < v.len() && same_text(v[i].as_str(), x.as_str()) {
        assert(texts_of(v@) =~= texts_of(pre).insert(x@)) by {
            assert(pre[i as int]@ == x@);
        }
        return;
    }
    proof {
        if i < v.len() {
            lemma_text_lt_total(v@[i as int]@, x@);
        }
    }
    v.insert(i, x);
    assert forall|a: int, b: int| 0 <= a < b < v@.len() implies text_lt(#[trigger] v@[a]@, #[trigger] v@[b]@) by {
        if a < i && b == i {
        } else if a == i && b > i {
            if b > i + 1 {
                lemma_text_lt_transitive(x@, pre[i as int]@, pre[b - 1]@);
            }
        } else if a < i && b > i {
        } else {
        }
    }
    assert(texts_of(v@) =~= texts_of(pre).insert(x@)) by {
        assert forall|t: Seq<char>| texts_of(pre).insert(x@).contains(t) implies texts_of(v@).contains(t) by {
            if t != x@ {
                let k = choose|k: int| 0 <= k < pre.len() && pre[k]@ == t;
                if k < i {
                    assert(v@[k]@ == t);
                } else {
                    assert(v@[k + 1]@ == t);
                }
            } else {
                assert(v@[i as int]@ == t);
            }
        }
    }
}

/// The texts of `v` as a strictly sorted list.
pub fn sorted_unique(v: &Vec<String>) -> (r: Vec<String>)
    ensures
        strictly_sorted(r@),
        texts_of(r@) == texts_of(v@),
{
    let mut r: Vec<String> = Vec::new();
    let mut i: usize = 0;
    while i < v.len()
        invariant
            i <= v.len(),
            strictly_sorted(r@),
            texts_of(r@) == texts_of(v@.subrange(0, i as int)),
        decreases v.len() - i,
    {
        insert_sorted(&mut r, v[i].clone());
        assert(texts_of(v@.subrange(0, i + 1)) =~= texts_of(v@.subrange(0, i as int)).insert(v@[i as int]@)) by {
            let s = v@.subrange(0, i + 1);
            assert forall|t: Seq<char>| texts_of(s).contains(t) implies texts_of(v@.subrange(0, i as int)).insert(v@[i as int]@).contains(t) by {
                let k = choose|k: int| 0 <= k < s.len() && s[k]@ == t;
                if k < i {
                    assert(v@.subrange(0, i as int)[k]@ == t);
                }
            }
            assert forall|t: Seq<char>| texts_of(v@.subrange(0, i as int)).insert(v@[i as int]@).contains(t) implies texts_of(s).contains(t) by {
                if t != v@[i as int]@ {
                    let k = choose|k: int| 0 <= k < i && v@.subrange(0, i as int)[k]@ == t;
                    assert(s[k]@ == t);
                } else {
                    assert(s[i as int]@ == t);
                }
            }
        }
        i = i + 1;
    }
    assert(v@.subrange(0, v.len() as int) =~= v@);
    r
}


/// Removes `x` from the sorted set `v`.
pub fn remove_sorted(v: &mut Vec<String>, x: &String)
    requires
        strictly_sorted(old(v)@),
    ensures
        strictly_sorted(final(v)@),
        texts_of(final(v)@) == texts_of(old(v)@).remove(x@),
{
    let mut i: usize = 0;
    while i < v.len()
        invariant
            i <= v@.len(),
            forall|k: int| 0 <= k < i ==> (#[trigger] v@[k])@ != x@,
        ensures
            i <= v@.len(),
            forall|k: int| 0 <= k < i ==> (#[trigger] v@[k])@ != x@,
            i < v@.len() ==> v@[i as int]@ == x@,
        decreases v.len() - i,
    {
        if v[i] == *x {
            break;
        }
        i = i + 1;
    }
    let ghost pre = v@;
    if i < v.len() && v[i] == *x {
        v.remove(i);
        assert forall|a: int, b: int| 0 <= a < b < v@.len() implies text_lt(#[trigger] v@[a]@, #[trigger] v@[b]@) by {
            if a < i && b >= i {
                assert(v@[b] == pre[b + 1]);
                assert(v@[a] == pre[a]);
            } else if a >= i {
                assert(v@[a] == pre[a + 1] && v@[b] == pre[b + 1]);
            } else {
                assert(v@[a] == pre[a] && v@[b] == pre[b]);
            }
        }
        assert(texts_of(v@) =~= texts_of(pre).remove(x@)) by {
            assert forall|t: Seq<char>| texts_of(pre).remove(x@).contains(t) implies texts_of(v@).contains(t) by {
                let k = choose|k: int| 0 <= k < pre.len() && pre[k]@ == t;
                if k < i {
                    assert(v@[k]@ == t);
                } else if k > i {
                    assert(v@[k - 1]@ == t);
                }
            }
            assert forall|t: Seq<char>| texts_of(v@).contains(t) implies texts_of(pre).remove(x@).contains(t) by {
                let k = choose|k: int| 0 <= k < v@.len() && v@[k]@ == t;
                if k < i {
                    assert(pre[k]@ == t);
                } else {
                    assert(pre[k + 1]@ == t);
                    if t == x@ {
                        assert(text_lt(pre[i as int]@, pre[k + 1]@));
                        lemma_text_lt_irreflexive(t);
                    }
                }
            }
        }
    } else {
        assert(texts_of(pre).remove(x@) =~= texts_of(pre)) by {
            assert forall|t: Seq<char>| texts_of(pre).contains(t) implies t != x@ by {
                let k = choose|k: int| 0 <= k < pre.len() && pre[k]@ == t;
            }
        }
    }
}


fn contains_text_of(v: &Vec<String>, x: &String) -> (r: bool)
    ensures
        r == texts_of(v@).contains(x@),
{
    let mut i: usize = 0;
    while i < v.len()
        invariant
            i <= v@.len(),
            forall|k: int| 0 <= k < i ==> (#[trigger] v@[k])@ != x@,
        decreases v.len() - i,
    {
        if v[i] == *x {
            assert(texts_of(v@).contains(v@[i as int]@));
            return true;
        }
        i = i + 1;
    }
    false
}

fn covers(a: &Vec<String>, b: &Vec<String>) -> (r: bool)
    ensures
        r == texts_of(b@).subset_of(texts_of(a@)),
{
    let mut i: usize = 0;
    while i < b.len()
        invariant
            i <= b@.len(),
            forall|k: int| 0 <= k < i ==> texts_of(a@).contains((#[trigger] b@[k])@),
        decreases b.len() - i,
    {
        if !contains_text_of(a, &b[i]) {
            assert(texts_of(b@).contains(b@[i as int]@));
            return false;
        }
        i = i + 1;
    }
    assert forall|t: Seq<char>| texts_of(b@).contains(t) implies texts_of(a@).contains(t) by {
        let k = choose|k: int| 0 <= k < b@.len() && #[trigger] b@[k]@ == t;
    }
    true
}

/// Whether two lists hold the same texts, ignoring order and repeats.
pub fn same_texts(a: &Vec<String>, b: &Vec<String>) -> (r: bool)
    ensures
        r == (texts_of(a@) == texts_of(b@)),
{
    let r = covers(a, b) && covers(b, a);
    proof {
        if r {
            assert(texts_of(a@) =~= texts_of(b@));
        }
    }
    r
}


pub open spec fn digit_char(d: nat) -> char {
    if d == 0 { '0' } else if d == 1 { '1' } else if d == 2 { '2' } else if d == 3 { '3' }
    else if d == 4 { '4' } else if d == 5 { '5' } else if d == 6 { '6' } else if d == 7 { '7' }
    else if d == 8 { '8' } else { '9' }
}

/// The decimal digits of `n`, without leading zeros.
pub open spec fn decimal(n: nat) -> Seq<char>
    decreases n,
{
    if n < 10 {
        seq![digit_char(n)]
    } else {
        decimal(n / 10).push(digit_char(n % 10))
    }
}

fn digit_of(d: u64) -> (r: char)
    requires
        d < 10,
    ensures
        r == digit_char(d as nat),
{
    if d == 0 { '0' } else if d == 1 { '1' } else if d == 2 { '2' } else if d == 3 { '3' }
    else if d == 4 { '4' } else if d == 5 { '5' } else if d == 6 { '6' } else if d == 7 { '7' }
    else if d == 8 { '8' } else { '9' }
}

/// `n` in decimal.
pub fn decimal_text(n: u64) -> (r: String)
    ensures
        r@ == decimal(n as nat),
    decreases n,
{
    if n < 10 {
        let mut r = String::new();
        push_char(&mut r, digit_of(n));
        assert(r@ =~= decimal(n as nat));
        r
    } else {
        let mut r = decimal_text(n / 10);
        push_char(&mut r, digit_of(n % 10));
        r
    }
}

} // verus!
