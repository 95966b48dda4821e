//! Character-sequence helpers shared by the lexers: searching for delimiter
//! characters and pairs, whitespace trimming, slicing, and joining lines.

use vstd::prelude::*;

verus! {

/// The whitespace characters recognized by `trimmed`.
pub open spec fn is_space(c: char) -> bool {
    c == ' ' || c == '\t' || c == '\r' || c == '\n'
}

/// Index of the first occurrence of `c` at or after `from`, if any.
pub open spec fn find_char(s: Seq<char>, from: int, c: char) -> Option<int>
    decreases s.len() - from,
{
    if !(0 <= from < s.len()) {
        None
    } else if s[from] == c {
        Some(from)
    } else {
        find_char(s, from + 1, c)
    }
}

/// Index of the first position `j` at or after `from` such that the two
/// characters `a`, `b` stand at `j`, `j + 1`, if any.
pub open spec fn find_pair(s: Seq<char>, from: int, a: char, b: char) -> Option<int>
    decreases s.len() - from,
{
    if !(0 <= from && from + 1 < s.len()) {
        None
    } else if s[from] == a && s[from + 1] == b {
        Some(from)
    } else {
        find_pair(s, from + 1, a, b)
    }
}

pub open spec fn trim_start(s: Seq<char>) -> Seq<char>
    decreases s.len(),
{
    if s.len() > 0 && is_space(s[0]) {
        trim_start(s.skip(1))
    } else {
        s
    }
}

pub open spec fn trim_end(s: Seq<char>) -> Seq<char>
    decreases s.len(),
{
    if s.len() > 0 && is_space(s[s.len() - 1]) {
        trim_end(s.drop_last())
    } else {
        s
    }
}

/// The sequence with leading and trailing whitespace removed.
pub open spec fn trimmed(s: Seq<char>) -> Seq<char> {
    trim_end(trim_start(s))
}

/// Exact characterization of `find_char`, proved by induction on the scan.
pub proof fn lemma_find_char(s: Seq<char>, from: int, c: char)
    requires
        0 <= from,
    ensures
        match find_char(s, from, c) {
            Some(j) => from <= j < s.len() && s[j] == c && forall|k: int|
                from <= k < j ==> s[k] != c,
            None => forall|k: int| from <= k < s.len() ==> s[k] != c,
        },
    decreases s.len() - from,
{
    if 0 <= from < s.len() && s[from] != c {
        lemma_find_char(s, from + 1, c);
    }
}

/// Exact characterization of `find_pair`.
pub proof fn lemma_find_pair(s: Seq<char>, from: int, a: char, b: char)
    requires
        0 <= from,
    ensures
        match find_pair(s, from, a, b) {
            Some(j) => from <= j && j + 1 < s.len() && s[j] == a && s[j + 1] == b && forall|k: int|
                from <= k < j ==> !((#[trigger] s[k]) == a && s[k + 1] == b),
            None => forall|k: int|
                from <= k && k + 1 < s.len() ==> !((#[trigger] s[k]) == a && s[k + 1] == b),
        },
    decreases s.len() - from,
{
    if 0 <= from && from + 1 < s.len() && !(s[from] == a && s[from + 1] == b) {
        lemma_find_pair(s, from + 1, a, b);
    }
}

/// Finds the first occurrence of `c` in `s` at or after `from`.
pub fn find_char_at(s: &Vec<char>, from: usize, c: char) -> (r: Option<usize>)
    ensures
        match r {
            Some(j) => find_char(s@, from as int, c) == Some(j as int),
            None => find_char(s@, from as int, c) is None,
        },
{
    let mut k: usize = from;
    while k < s.len()
        invariant
            from <= k,
            forall|q: int| from <= q < k ==> s@[q] != c,
        decreases s.len() - k,
    {
        if s[k] == c {
            proof {
                lemma_find_char_found(s@, from as int, c, k as int);
            }
            return Some(k);
        }
        k = k + 1;
    }
    proof {
        lemma_find_char(s@, from as int, c);
    }
    None
}

/// If `j` is an occurrence and nothing earlier is, the scan returns `j`.
proof fn lemma_find_char_found(s: Seq<char>, from: int, c: char, j: int)
    requires
        0 <= from <= j < s.len(),
        s[j] == c,
        forall|k: int| from <= k < j ==> s[k] != c,
    ensures
        find_char(s, from, c) == Some(j),
    decreases j - from,
{
    if from < j {
        lemma_find_char_found(s, from + 1, c, j);
    }
}

/// Finds the first position at or after `from` where `a` is immediately
/// followed by `b`.
pub fn find_pair_at(s: &Vec<char>, from: usize, a: char, b: char) -> (r: Option<usize>)
    ensures
        match r {
            Some(j) => find_pair(s@, from as int, a, b) == Some(j as int),
            None => find_pair(s@, from as int, a, b) is None,
        },
{
    if from >= s.len() {
        proof {
            lemma_find_pair(s@, from as int, a, b);
        }
        return None;
    }
    let mut k: usize = from;
    while k < s.len() - 1
        invariant
            from <= k <= s@.len(),
            s@.len() >= 1,
            forall|q: int| from <= q < k ==> !((#[trigger] s@[q]) == a && s@[q + 1] == b),
        decreases s.len() - k,
    {
        if s[k] == a && s[k + 1] == b {
            proof {
                lemma_find_pair_found(s@, from as int, a, b, k as int);
            }
            return Some(k);
        }
        k = k + 1;
    }
    proof {
        lemma_find_pair(s@, from as int, a, b);
    }
    None
}

proof fn lemma_find_pair_found(s: Seq<char>, from: int, a: char, b: char, j: int)
    requires
        0 <= from <= j,
        j + 1 < s.len(),
        s[j] == a,
        s[j + 1] == b,
        forall|k: int| from <= k < j ==> !((#[trigger] s[k]) == a && s[k + 1] == b),
    ensures
        find_pair(s, from, a, b) == Some(j),
    decreases j - from,
{
    if from < j {
        lemma_find_pair_found(s, from + 1, a, b, j);
    }
}

/// Relies on `String::push`: appends one character to the string.
#[verifier::external_body]
pub fn push_char(s: &mut String, c: char)
    ensures
        final(s)@ == old(s)@.push(c),
{
    s.push(c);
}

/// Builds the string holding exactly the characters of `v`.
pub fn chars_to_string(v: &Vec<char>) -> (r: String)
    ensures
        r@ == v@,
{
    let mut r = String::new();
    let mut k: usize = 0;
    while k < v.len()
        invariant
            k <= v@.len(),
            r@ == v@.subrange(0, k as int),
        decreases v@.len() - k,
    {
        push_char(&mut r, v[k]);
        proof {
            assert(r@ =~= v@.subrange(0, k + 1));
        }
        k = k + 1;
    }
    proof {
        assert(r@ =~= v@);
    }
    r
}

/// Copies the characters of `s` in positions `[l, r)` into a fresh vector.
pub fn slice_range(s: &Vec<char>, l: usize, r: usize) -> (out: Vec<char>)
    requires
        l <= r <= s@.len(),
    ensures
        out@ == s@.subrange(l as int, r as int),
{
    let mut out: Vec<char> = Vec::new();
    let mut k: usize = l;
    while k < r
        invariant
            l <= k <= r <= s@.len(),
            out@ == s@.subrange(l as int, k as int),
        decreases r - k,
    {
        out.push(s[k]);
        proof {
            assert(out@ =~= s@.subrange(l as int, k + 1));
        }
        k = k + 1;
    }
    out
}

/// Removes leading and trailing whitespace.
pub fn trim_chars(s: &Vec<char>) -> (r: Vec<char>)
    ensures
        r@ == trimmed(s@),
{
    proof {
        assert(s@.skip(0) =~= s@);
    }
    let mut l: usize = 0;
    while l < s.len() && is_space_char(s[l])
        invariant
            l <= s@.len(),
            trim_start(s@) == trim_start(s@.skip(l as int)),
        decreases s@.len() - l,
    {
        proof {
            assert(s@.skip(l as int).skip(1) =~= s@.skip(l + 1));
        }
        l = l + 1;
    }
    proof {
        assert(trim_start(s@) =~= s@.skip(l as int));
        assert(s@.subrange(l as int, s@.len() as int) =~= s@.skip(l as int));
    }
    let mut r: usize = s.len();
    while r > l && is_space_char(s[r - 1])
        invariant
            l <= r <= s@.len(),
            trim_start(s@) == s@.skip(l as int),
            trim_end(trim_start(s@)) == trim_end(s@.subrange(l as int, r as int)),
        decreases r,
    {
        proof {
            assert(s@.subrange(l as int, r as int).drop_last() =~= s@.subrange(l as int, r - 1));
        }
        r = r - 1;
    }
    proof {
        assert(trim_end(s@.subrange(l as int, r as int)) =~= s@.subrange(l as int, r as int));
    }
    slice_range(s, l, r)
}

/// Whether `c` is one of the whitespace characters `trimmed` removes.
pub fn is_space_char(c: char) -> (r: bool)
    ensures
        r == is_space(c),
{
    c == ' ' || c == '\t' || c == '\r' || c == '\n'
}

/// The number of leading whitespace characters: what remains is the
/// start-trimmed line.
pub fn skip_spaces(s: &Vec<char>) -> (l: usize)
    ensures
        l <= s@.len(),
        trim_start(s@) == s@.skip(l as int),
{
    proof {
        assert(s@.skip(0) =~= s@);
    }
    let mut l: usize = 0;
    while l < s.len() && is_space_char(s[l])
        invariant
            l <= s@.len(),
            trim_start(s@) == trim_start(s@.skip(l as int)),
        decreases s@.len() - l,
    {
        proof {
            assert(s@.skip(l as int).skip(1) =~= s@.skip(l + 1));
        }
        l = l + 1;
    }
    proof {
        assert(trim_start(s@) =~= s@.skip(l as int));
    }
    l
}

} // verus!
