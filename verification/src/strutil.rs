//! String utilities: lexicographic order on character sequences, membership
//! in a list of names, and splitting a comma-separated list.

use vstd::prelude::*;

verus! {

/// Lexicographic strictly-less-than on the characters of `a` and `b`,
/// starting at position `i`.
pub open spec fn lex_lt_from(a: Seq<char>, b: Seq<char>, i: int) -> bool
    decreases a.len() - i,
{
    if i >= a.len() {
        i < b.len()
    } else if i >= b.len() {
        false
    } else if a[i] != b[i] {
        (a[i] as int) < (b[i] as int)
    } else {
        lex_lt_from(a, b, i + 1)
    }
}

/// Lexicographic strictly-less-than on character sequences, by code point.
pub open spec fn lex_lt(a: Seq<char>, b: Seq<char>) -> bool {
    lex_lt_from(a, b, 0)
}

/// Two sequences that are not ordered either way are equal.
proof fn lemma_lex_connected_from(a: Seq<char>, b: Seq<char>, i: int)
    requires
        0 <= i <= a.len(),
        0 <= i <= b.len(),
        a.subrange(0, i) == b.subrange(0, i),
        !lex_lt_from(a, b, i),
        !lex_lt_from(b, a, i),
    ensures
        a == b,
    decreases a.len() - i,
{
    if i >= a.len() {
        assert(b.len() <= i);
        assert forall|j: int| 0 <= j < i implies a[j] == b[j] by {
            assert(a[j] == a.subrange(0, i)[j]);
            assert(b[j] == b.subrange(0, i)[j]);
        }
        assert(a =~= b);
    } else if i >= b.len() {
        assert(false);
    } else if a[i] != b[i] {
        assert(false);
    } else {
        assert(a.subrange(0, i + 1) =~= b.subrange(0, i + 1)) by {
            assert(forall|j: int|
                0 <= j < i ==> a.subrange(0, i)[j] == b.subrange(0, i)[j]);
        }
        lemma_lex_connected_from(a, b, i + 1);
    }
}

/// Connectedness of the lexicographic order.
pub proof fn lemma_lex_connected(a: Seq<char>, b: Seq<char>)
    requires
        !lex_lt(a, b),
        !lex_lt(b, a),
    ensures
        a == b,
{
    assert(a.subrange(0, 0) =~= b.subrange(0, 0));
    lemma_lex_connected_from(a, b, 0);
}

proof fn lemma_lex_trans_from(a: Seq<char>, b: Seq<char>, c: Seq<char>, i: int)
    requires
        0 <= i,
        lex_lt_from(a, b, i),
        lex_lt_from(b, c, i),
    ensures
        lex_lt_from(a, c, i),
    decreases a.len() - i + b.len() + c.len(),
{
    if i >= a.len() {
        // a ends at i; b is longer; show c is longer than i too.
        assert(i < b.len());
        if i >= c.len() {
            assert(!lex_lt_from(b, c, i));
        }
    } else {
        assert(i < b.len());
        assert(i < c.len());
        if a[i] != b[i] {
            if b[i] != c[i] {
                assert((a[i] as int) < (c[i] as int));
            } else {
                assert((a[i] as int) < (c[i] as int));
            }
        } else {
            if b[i] != c[i] {
                assert((a[i] as int) < (c[i] as int));
            } else {
                lemma_lex_trans_from(a, b, c, i + 1);
            }
        }
    }
}

/// Transitivity of the lexicographic order.
pub proof fn lemma_lex_trans(a: Seq<char>, b: Seq<char>, c: Seq<char>)
    requires
        lex_lt(a, b),
        lex_lt(b, c),
    ensures
        lex_lt(a, c),
{
    lemma_lex_trans_from(a, b, c, 0);
}

/// No sequence is lexicographically below itself.
proof fn lemma_lex_irrefl_from(a: Seq<char>, i: int)
    ensures
        !lex_lt_from(a, a, i),
    decreases a.len() - i,
{
    if i < a.len() {
        lemma_lex_irrefl_from(a, i + 1);
    }
}

/// Irreflexivity of the lexicographic order.
pub proof fn lemma_lex_irrefl(a: Seq<char>)
    ensures
        !lex_lt(a, a),
{
    lemma_lex_irrefl_from(a, 0);
}

/// Lexicographic comparison of two strings, by code point.
pub fn str_lt(a: &str, b: &str) -> (r: bool)
    ensures
        r == lex_lt(a@, b@),
{
    let alen: usize = a.unicode_len();
    let blen: usize = b.unicode_len();
    let mut i: usize = 0;
    loop
        invariant
            0 <= i <= alen,
            0 <= i <= blen,
            alen == a@.len(),
            blen == b@.len(),
            lex_lt(a@, b@) == lex_lt_from(a@, b@, i as int),
            lex_lt(b@, a@) == lex_lt_from(b@, a@, i as int),
        decreases alen - i,
    {
        if i >= alen {
            return i < blen;
        }
        if i >= blen {
            return false;
        }
        let ca: char = a.get_char(i);
        let cb: char = b.get_char(i);
        if ca as u32 != cb as u32 {
            return (ca as u32) < (cb as u32);
        }
        i = i + 1;
    }
}

/// Whether `names` holds a string whose characters equal `s`.
pub open spec fn names_contain(names: Seq<String>, s: Seq<char>) -> bool {
    exists|k: int| 0 <= k < names.len() && names[k]@ == s
}

/// Membership of `s` in a list of names.
pub fn contains_name(names: &Vec<String>, s: &String) -> (r: bool)
    ensures
        r == names_contain(names@, s@),
{
    let mut i: usize = 0;
    while i < names.len()
        invariant
            0 <= i <= names@.len(),
            forall|k: int| 0 <= k < i ==> names@[k]@ != s@,
        decreases names@.len() - i,
    {
        if names[i].eq(s) {
            return true;
        }
        i = i + 1;
    }
    false
}

/// The segments of `s` between commas, taken from position `i` on, where
/// `start` is the beginning of the segment currently open.
pub open spec fn split_from(s: Seq<char>, i: int, start: int) -> Seq<Seq<char>>
    decreases s.len() - i,
{
    if i >= s.len() {
        seq![s.subrange(start, s.len() as int)]
    } else if s[i] == ',' {
        seq![s.subrange(start, i)] + split_from(s, i + 1, i + 1)
    } else {
        split_from(s, i + 1, start)
    }
}

/// The segments of `s` between commas. A string without a comma yields one
/// segment; in particular the empty string yields one empty segment.
pub open spec fn split_commas(s: Seq<char>) -> Seq<Seq<char>> {
    split_from(s, 0, 0)
}

/// Splits `s` at each comma into the list of its segments.
pub fn split_commas_exec(s: &str) -> (r: Vec<String>)
    ensures
        r@.len() == split_commas(s@).len(),
        forall|k: int| 0 <= k < r@.len() ==> r@[k]@ == split_commas(s@)[k],
{
    let n: usize = s.unicode_len();
    let mut r: Vec<String> = Vec::new();
    let mut start: usize = 0;
    let mut i: usize = 0;
    while i < n
        invariant
            0 <= start <= i <= n,
            n == s@.len(),
            split_commas(s@) == seg_views(r@) + split_from(s@, i as int, start as int),
        decreases n - i,
    {
        if s.get_char(i) == ',' {
            let seg: String = s.substring_char(start, i).to_owned();
            proof {
                let ghost old_r = r@;
                assert(seg_views(old_r.push(seg)) =~= seg_views(old_r) + seq![seg@]);
                assert((seg_views(old_r) + seq![seg@]) + split_from(
                    s@,
                    i as int + 1,
                    i as int + 1,
                ) =~= seg_views(old_r) + (seq![s@.subrange(start as int, i as int)] + split_from(
                    s@,
                    i as int + 1,
                    i as int + 1,
                )));
            }
            r.push(seg);
            start = i + 1;
        }
        i = i + 1;
    }
    let seg: String = s.substring_char(start, n).to_owned();
    proof {
        let ghost old_r = r@;
        assert(seg_views(old_r.push(seg)) =~= seg_views(old_r) + seq![seg@]);
    }
    r.push(seg);
    proof {
        assert(forall|k: int|
            0 <= k < r@.len() ==> r@[k]@ == #[trigger] seg_views(r@)[k]);
    }
    r
}

/// The character sequences of a list of strings.
pub open spec fn seg_views(r: Seq<String>) -> Seq<Seq<char>> {
    r.map_values(|t: String| t@)
}

} // verus!
