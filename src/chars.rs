use vstd::prelude::*;

verus! {

/// The characters of `s`, in order.
pub fn chars_of(s: &str) -> (r: Vec<char>)
    ensures
        r@ == s@,
{
    let mut r: Vec<char> = Vec::new();
    for c in it: s.chars()
        invariant
            it.seq() == s@,
            r@ == it.seq().subrange(0, it.index() as int),
    {
        r.push(c);
        assert(r@ =~= it.seq().subrange(0, it.index() + 1));
    }
    r
}

/// The first index at or after `i` that holds `c`, or the length of `t` when there is none.
pub open spec fn next_index_of(t: Seq<char>, c: char, i: int) -> int
    decreases t.len() - i,
{
    if 0 <= i < t.len() {
        if t[i] == c {
            i
        } else {
            next_index_of(t, c, i + 1)
        }
    } else {
        t.len() as int
    }
}

/// The first index of `c` from `i` on lies between `i` and the end, and holds `c`.
pub proof fn lemma_next_index_of(t: Seq<char>, c: char, i: int)
    requires
        0 <= i <= t.len(),
    ensures
        i <= next_index_of(t, c, i) <= t.len(),
        next_index_of(t, c, i) < t.len() ==> t[next_index_of(t, c, i)] == c,
    decreases t.len() - i,
{
    if i < t.len() {
        lemma_next_index_of(t, c, i + 1);
    }
}

/// Finds the first `c` in `t` at or after `i`.
pub fn find_char(t: &Vec<char>, c: char, i: usize) -> (r: usize)
    requires
        i <= t@.len(),
    ensures
        r == next_index_of(t@, c, i as int),
{
    let mut k: usize = i;
    while k < t.len()
        invariant
            i <= k <= t@.len(),
            next_index_of(t@, c, i as int) == next_index_of(t@, c, k as int),
        decreases t@.len() - k,
    {
        if t[k] == c {
            return k;
        }
        k = k + 1;
    }
    k
}

/// Appends `src[a..b]` to `dst`.
pub fn append_range(dst: &mut Vec<char>, src: &Vec<char>, a: usize, b: usize)
    requires
        a <= b <= src@.len(),
    ensures
        final(dst)@ == old(dst)@ + src@.subrange(a as int, b as int),
{
    let mut k: usize = a;
    while k < b
        invariant
            a <= k <= b <= src@.len(),
            dst@ == old(dst)@ + src@.subrange(a as int, k as int),
        decreases b - k,
    {
        dst.push(src[k]);
        k = k + 1;
        assert(dst@ =~= old(dst)@ + src@.subrange(a as int, k as int));
    }
}

/// A new vector holding `src[a..b]`.
pub fn slice_chars(src: &Vec<char>, a: usize, b: usize) -> (r: Vec<char>)
    requires
        a <= b <= src@.len(),
    ensures
        r@ == src@.subrange(a as int, b as int),
{
    let mut r: Vec<char> = Vec::new();
    append_range(&mut r, src, a, b);
    assert(r@ =~= src@.subrange(a as int, b as int));
    r
}

} // verus!
