//! Character-level text primitives: trimming, prefix tests, substring
//! search, replace-all, line splitting and concatenation.
//!
//! Every executable function mirrors a spec function over `Seq<char>`
//! exactly; the rest of the library states its contracts in terms of
//! these spec functions.

use vstd::prelude::*;

verus! {

/// The ASCII whitespace characters recognised by trimming.
pub open spec fn is_ws(c: char) -> bool {
    c == ' ' || c == '\t' || c == '\n' || c == '\r'
}

/// `s` with leading whitespace removed.
pub open spec fn trim_front(s: Seq<char>) -> Seq<char>
    decreases s.len(),
{
    if s.len() > 0 && is_ws(s[0]) {
        trim_front(s.skip(1))
    } else {
        s
    }
}

/// `s` with trailing whitespace removed.
pub open spec fn trim_back(s: Seq<char>) -> Seq<char>
    decreases s.len(),
{
    if s.len() > 0 && is_ws(s.last()) {
        trim_back(s.drop_last())
    } else {
        s
    }
}

/// `s` with both leading and trailing whitespace removed.
pub open spec fn trimmed(s: Seq<char>) -> Seq<char> {
    trim_back(trim_front(s))
}

proof fn lemma_trim_front_stops(s: Seq<char>, k: int)
    requires
        0 <= k <= s.len(),
        forall|i: int| 0 <= i < k ==> is_ws(s[i]),
        k < s.len() ==> !is_ws(s[k]),
    ensures
        trim_front(s) == s.skip(k),
    decreases k,
{
    if k == 0 {
        if s.len() > 0 {
            assert(!is_ws(s[0]));
        }
        assert(s.skip(0) =~= s);
    } else {
        assert(is_ws(s[0]));
        assert(s.skip(1).skip(k - 1) =~= s.skip(k));
        lemma_trim_front_stops(s.skip(1), k - 1);
    }
}

proof fn lemma_trim_back_stops(s: Seq<char>, k: int)
    requires
        0 <= k <= s.len(),
        forall|i: int| k <= i < s.len() ==> is_ws(s[i]),
        k > 0 ==> !is_ws(s[k - 1]),
    ensures
        trim_back(s) == s.take(k),
    decreases s.len() - k,
{
    if k == s.len() {
        assert(s.take(k) =~= s);
        if s.len() > 0 {
            assert(!is_ws(s.last()));
        }
    } else {
        assert(is_ws(s.last()));
        assert(s.drop_last() =~= s.take(s.len() - 1));
        assert(s.take(s.len() - 1).take(k) =~= s.take(k));
        lemma_trim_back_stops(s.take(s.len() - 1), k);
    }
}

/// Remove leading and trailing ASCII whitespace.
pub fn trim(s: &Vec<char>) -> (r: Vec<char>)
    ensures
        r@ == trimmed(s@),
{
    let mut lo: usize = 0;
    while lo < s.len() && (s[lo] == ' ' || s[lo] == '\t' || s[lo] == '\n' || s[lo] == '\r')
        invariant
            0 <= lo <= s.len(),
            forall|i: int| 0 <= i < lo ==> is_ws(s@[i]),
        decreases s.len() - lo,
    {
        lo = lo + 1;
    }
    proof {
        lemma_trim_front_stops(s@, lo as int);
    }
    let mut hi: usize = s.len();
    while hi > lo && (s[hi - 1] == ' ' || s[hi - 1] == '\t' || s[hi - 1] == '\n' || s[hi - 1]
        == '\r')
        invariant
            lo <= hi <= s.len(),
            forall|i: int| hi <= i < s.len() ==> is_ws(s@[i]),
        decreases hi,
    {
        hi = hi - 1;
    }
    proof {
        assert(s@.skip(lo as int).len() == s.len() - lo);
        assert(forall|i: int|
            (hi - lo) <= i < s@.skip(lo as int).len() ==> is_ws(#[trigger] s@.skip(lo as int)[i]));
        if hi > lo {
            assert(s@.skip(lo as int)[hi - lo - 1] == s@[hi - 1]);
            assert(!is_ws(s@.skip(lo as int)[hi - lo - 1]));
        }
        lemma_trim_back_stops(s@.skip(lo as int), hi - lo);
    }
    let mut r: Vec<char> = Vec::new();
    let mut i: usize = lo;
    while i < hi
        invariant
            lo <= i <= hi <= s.len(),
            r@ == s@.subrange(lo as int, i as int),
        decreases hi - i,
    {
        r.push(s[i]);
        assert(r@ =~= s@.subrange(lo as int, i + 1));
        i = i + 1;
    }
    proof {
        assert(s@.skip(lo as int).take(hi - lo) =~= s@.subrange(lo as int, hi as int));
    }
    r
}

/// True when `pre` is a prefix of `s`.
pub open spec fn has_prefix(s: Seq<char>, pre: Seq<char>) -> bool {
    pre.len() <= s.len() && s.take(pre.len() as int) == pre
}

/// Prefix test on character vectors.
pub fn starts_with(s: &Vec<char>, pre: &Vec<char>) -> (r: bool)
    ensures
        r == has_prefix(s@, pre@),
{
    if pre.len() > s.len() {
        assert(!has_prefix(s@, pre@));
        return false;
    }
    let mut i: usize = 0;
    while i < pre.len()
        invariant
            0 <= i <= pre.len() <= s.len(),
            forall|j: int| 0 <= j < i ==> s@[j] == pre@[j],
        decreases pre.len() - i,
    {
        if s[i] != pre[i] {
            assert(s@.take(pre@.len() as int)[i as int] != pre@[i as int]);
            return false;
        }
        i = i + 1;
    }
    assert(s@.take(pre@.len() as int) =~= pre@);
    true
}

/// Equality test on character vectors.
pub fn chars_eq(a: &Vec<char>, b: &Vec<char>) -> (r: bool)
    ensures
        r == (a@ == b@),
{
    if a.len() != b.len() {
        return false;
    }
    let mut i: usize = 0;
    while i < a.len()
        invariant
            0 <= i <= a.len() == b.len(),
            forall|j: int| 0 <= j < i ==> a@[j] == b@[j],
        decreases a.len() - i,
    {
        if a[i] != b[i] {
            return false;
        }
        i = i + 1;
    }
    assert(a@ =~= b@);
    true
}

/// True when `pat` occurs in `s` at position `i`.
pub open spec fn occurs_at(s: Seq<char>, pat: Seq<char>, i: int) -> bool {
    0 <= i && i + pat.len() <= s.len() && s.subrange(i, i + pat.len() as int) == pat
}

/// True when `pat` occurs somewhere in `s`.
pub open spec fn occurs(s: Seq<char>, pat: Seq<char>) -> bool {
    exists|i: int| occurs_at(s, pat, i)
}

/// True when the character `c` occurs in `s`.
pub open spec fn has_char(s: Seq<char>, c: char) -> bool {
    exists|i: int| 0 <= i < s.len() && s[i] == c
}

/// Character membership test.
pub fn contains_char(s: &Vec<char>, c: char) -> (r: bool)
    ensures
        r == has_char(s@, c),
{
    let mut i: usize = 0;
    while i < s.len()
        invariant
            0 <= i <= s.len(),
            forall|j: int| 0 <= j < i ==> s@[j] != c,
        decreases s.len() - i,
    {
        if s[i] == c {
            return true;
        }
        i = i + 1;
    }
    false
}

/// Substring match at a fixed position.
fn matches_at(s: &Vec<char>, pat: &Vec<char>, at: usize) -> (r: bool)
    requires
        at + pat@.len() <= s@.len(),
    ensures
        r == occurs_at(s@, pat@, at as int),
{
    let n = s.len();
    let mut i: usize = 0;
    while i < pat.len()
        invariant
            0 <= i <= pat.len(),
            at + pat@.len() <= s@.len(),
            n == s@.len(),
            forall|j: int| 0 <= j < i ==> s@[at + j] == pat@[j],
        decreases pat.len() - i,
    {
        assert(at + i < n);
        if s[at + i] != pat[i] {
            assert(s@.subrange(at as int, at + pat@.len())[i as int] != pat@[i as int]);
            return false;
        }
        i = i + 1;
    }
    assert(s@.subrange(at as int, at + pat@.len()) =~= pat@);
    true
}

/// Append a copy of `other` to `out`.
pub fn extend(out: &mut Vec<char>, other: &Vec<char>)
    ensures
        final(out)@ == old(out)@ + other@,
{
    let mut i: usize = 0;
    while i < other.len()
        invariant
            0 <= i <= other.len(),
            out@ == old(out)@ + other@.take(i as int),
        decreases other.len() - i,
    {
        out.push(other[i]);
        assert(old(out)@ + other@.take(i as int) + seq![other@[i as int]] =~= old(out)@
            + other@.take(i + 1));
        i = i + 1;
    }
    assert(other@.take(other@.len() as int) =~= other@);
}

/// The concatenation of two texts.
pub fn concat2(a: &Vec<char>, b: &Vec<char>) -> (r: Vec<char>)
    ensures
        r@ == a@ + b@,
{
    let mut r: Vec<char> = Vec::new();
    assert(r@ + a@ =~= a@);
    extend(&mut r, a);
    extend(&mut r, b);
    r
}

/// The concatenation of three texts.
pub fn concat3(a: &Vec<char>, b: &Vec<char>, c: &Vec<char>) -> (r: Vec<char>)
    ensures
        r@ == a@ + b@ + c@,
{
    let mut r = concat2(a, b);
    extend(&mut r, c);
    r
}

/// Substring search.
pub fn contains_seq(s: &Vec<char>, pat: &Vec<char>) -> (r: bool)
    ensures
        r == occurs(s@, pat@),
{
    if pat.len() > s.len() {
        assert(forall|i: int| !occurs_at(s@, pat@, i));
        return false;
    }
    if pat.len() == 0 {
        assert(occurs_at(s@, pat@, 0)) by {
            assert(s@.subrange(0, 0) =~= pat@);
        }
        return true;
    }
    let mut i: usize = 0;
    while i <= s.len() - pat.len()
        invariant
            0 <= i <= s.len() - pat.len() + 1,
            0 < pat.len() <= s.len(),
            forall|j: int| 0 <= j < i ==> !occurs_at(s@, pat@, j),
        decreases s.len() - i,
    {
        if matches_at(s, pat, i) {
            return true;
        }
        i = i + 1;
    }
    assert(forall|j: int| i <= j ==> !occurs_at(s@, pat@, j));
    false
}

/// The result of replacing every occurrence of `pat` in `s` by `rep`,
/// scanning left to right and never rescanning replacement text. An
/// empty pattern leaves the text unchanged.
pub open spec fn replace_all(s: Seq<char>, pat: Seq<char>, rep: Seq<char>) -> Seq<char>
    decreases s.len(),
{
    if pat.len() == 0 || s.len() < pat.len() {
        s
    } else if s.take(pat.len() as int) == pat {
        rep + replace_all(s.skip(pat.len() as int), pat, rep)
    } else {
        seq![s[0]] + replace_all(s.skip(1), pat, rep)
    }
}

/// If `pat` never occurs in `s`, replacement leaves `s` unchanged.
pub proof fn lemma_replace_absent(s: Seq<char>, pat: Seq<char>, rep: Seq<char>)
    requires
        !occurs(s, pat),
    ensures
        replace_all(s, pat, rep) == s,
    decreases s.len(),
{
    if pat.len() == 0 || s.len() < pat.len() {
    } else {
        assert(s.subrange(0, pat.len() as int) =~= s.take(pat.len() as int));
        assert(!occurs_at(s, pat, 0));
        assert(forall|i: int| occurs_at(s.skip(1), pat, i) ==> occurs_at(s, pat, i + 1)) by {
            assert forall|i: int| occurs_at(s.skip(1), pat, i) implies occurs_at(s, pat, i + 1) by {
                assert(s.skip(1).subrange(i, i + pat.len() as int) =~= s.subrange(
                    i + 1,
                    i + 1 + pat.len() as int,
                ));
            }
        }
        lemma_replace_absent(s.skip(1), pat, rep);
        assert(seq![s[0]] + s.skip(1) =~= s);
    }
}

/// Replace every occurrence of `pat` in `s` by `rep`.
pub fn replace(s: &Vec<char>, pat: &Vec<char>, rep: &Vec<char>) -> (r: Vec<char>)
    ensures
        r@ == replace_all(s@, pat@, rep@),
{
    let n = s.len();
    if pat.len() == 0 || n < pat.len() {
        let mut r: Vec<char> = Vec::new();
        assert(r@ + s@ =~= s@);
        extend(&mut r, s);
        return r;
    }
    let mut out: Vec<char> = Vec::new();
    let mut i: usize = 0;
    proof {
        assert(s@.skip(0) =~= s@);
        assert(out@ + replace_all(s@, pat@, rep@) =~= replace_all(s@, pat@, rep@));
    }
    while n - i >= pat.len()
        invariant
            0 <= i <= n,
            n == s@.len(),
            0 < pat@.len(),
            replace_all(s@, pat@, rep@) == out@ + replace_all(s@.skip(i as int), pat@, rep@),
        decreases n - i,
    {
        let ghost tail = s@.skip(i as int);
        let ghost out_pre = out@;
        if matches_at(s, pat, i) {
            proof {
                assert(tail.take(pat@.len() as int) =~= s@.subrange(i as int, i + pat@.len()));
                assert(replace_all(tail, pat@, rep@) == rep@ + replace_all(
                    tail.skip(pat@.len() as int),
                    pat@,
                    rep@,
                ));
                assert(tail.skip(pat@.len() as int) =~= s@.skip(i + pat@.len()));
            }
            extend(&mut out, rep);
            i = i + pat.len();
            proof {
                assert(out_pre + (rep@ + replace_all(s@.skip(i as int), pat@, rep@)) =~= out@
                    + replace_all(s@.skip(i as int), pat@, rep@));
            }
        } else {
            proof {
                assert(tail.take(pat@.len() as int) =~= s@.subrange(i as int, i + pat@.len()));
                assert(tail.take(pat@.len() as int) != pat@);
                assert(replace_all(tail, pat@, rep@) == seq![tail[0]] + replace_all(
                    tail.skip(1),
                    pat@,
                    rep@,
                ));
                assert(tail.skip(1) =~= s@.skip(i + 1));
                assert(tail[0] == s@[i as int]);
            }
            out.push(s[i]);
            i = i + 1;
            proof {
                assert(out_pre + (seq![tail[0]] + replace_all(s@.skip(i as int), pat@, rep@))
                    =~= out@ + replace_all(s@.skip(i as int), pat@, rep@));
            }
        }
    }
    proof {
        assert(replace_all(s@.skip(i as int), pat@, rep@) == s@.skip(i as int));
    }
    let ghost done = out@;
    let mut j: usize = i;
    while j < n
        invariant
            i <= j <= n,
            n == s@.len(),
            out@ == done + s@.subrange(i as int, j as int),
            replace_all(s@, pat@, rep@) == done + s@.skip(i as int),
        decreases n - j,
    {
        out.push(s[j]);
        assert(out@ =~= done + s@.subrange(i as int, j + 1));
        j = j + 1;
    }
    proof {
        assert(s@.subrange(i as int, n as int) =~= s@.skip(i as int));
    }
    out
}

/// The position of the first occurrence of `pat` in `s`, or `-1`.
pub open spec fn find_idx(s: Seq<char>, pat: Seq<char>) -> int
    decreases s.len(),
{
    if pat.len() == 0 {
        0
    } else if s.len() < pat.len() {
        -1
    } else if s.take(pat.len() as int) == pat {
        0
    } else {
        let r = find_idx(s.skip(1), pat);
        if r < 0 {
            -1
        } else {
            r + 1
        }
    }
}

pub proof fn lemma_find_idx_none(s: Seq<char>, pat: Seq<char>)
    requires
        !occurs(s, pat),
    ensures
        find_idx(s, pat) == -1,
    decreases s.len(),
{
    if pat.len() == 0 {
        assert(occurs_at(s, pat, 0)) by {
            assert(s.subrange(0, 0) =~= pat);
        }
    } else if s.len() < pat.len() {
    } else {
        assert(s.subrange(0, pat.len() as int) =~= s.take(pat.len() as int));
        assert(!occurs_at(s, pat, 0));
        assert forall|i: int| occurs_at(s.skip(1), pat, i) implies occurs_at(s, pat, i + 1) by {
            assert(s.skip(1).subrange(i, i + pat.len() as int) =~= s.subrange(
                i + 1,
                i + 1 + pat.len() as int,
            ));
        }
        lemma_find_idx_none(s.skip(1), pat);
    }
}

pub proof fn lemma_find_idx_at(s: Seq<char>, pat: Seq<char>, k: int)
    requires
        occurs_at(s, pat, k),
        forall|j: int| 0 <= j < k ==> !occurs_at(s, pat, j),
    ensures
        find_idx(s, pat) == k,
    decreases k,
{
    assert(k + pat.len() <= s.len());
    if pat.len() == 0 {
        if k > 0 {
            assert(occurs_at(s, pat, 0)) by {
                assert(s.subrange(0, 0) =~= pat);
            }
        }
    } else if k == 0 {
        assert(s.take(pat.len() as int) =~= s.subrange(0, pat.len() as int));
    } else {
        assert(!occurs_at(s, pat, 0));
        assert(s.take(pat.len() as int) =~= s.subrange(0, pat.len() as int));
        assert(s.skip(1).subrange(k - 1, k - 1 + pat.len() as int) =~= s.subrange(
            k,
            k + pat.len() as int,
        ));
        assert(occurs_at(s.skip(1), pat, k - 1));
        assert forall|j: int| 0 <= j < k - 1 implies !occurs_at(s.skip(1), pat, j) by {
            if occurs_at(s.skip(1), pat, j) {
                assert(s.skip(1).subrange(j, j + pat.len() as int) =~= s.subrange(
                    j + 1,
                    j + 1 + pat.len() as int,
                ));
                assert(occurs_at(s, pat, j + 1));
            }
        }
        lemma_find_idx_at(s.skip(1), pat, k - 1);
    }
}

/// Search for the first occurrence of `pat`, reporting its position.
pub fn find(s: &Vec<char>, pat: &Vec<char>) -> (r: Option<usize>)
    ensures
        match r {
            Some(k) => find_idx(s@, pat@) == k as int && k + pat@.len() <= s@.len(),
            None => find_idx(s@, pat@) == -1,
        },
{
    let n = s.len();
    if pat.len() == 0 {
        return Some(0);
    }
    if pat.len() > n {
        proof {
            assert(forall|i: int| !occurs_at(s@, pat@, i));
            lemma_find_idx_none(s@, pat@);
        }
        return None;
    }
    let mut i: usize = 0;
    while i <= n - pat.len()
        invariant
            0 <= i <= n - pat@.len() + 1,
            0 < pat@.len() <= n,
            n == s@.len(),
            forall|j: int| 0 <= j < i ==> !occurs_at(s@, pat@, j),
        decreases n - i,
    {
        if matches_at(s, pat, i) {
            proof {
                lemma_find_idx_at(s@, pat@, i as int);
            }
            return Some(i);
        }
        i = i + 1;
    }
    proof {
        assert(forall|j: int| !occurs_at(s@, pat@, j));
        lemma_find_idx_none(s@, pat@);
    }
    None
}

/// The position of the last occurrence of character `c` in `s`, or `-1`.
pub open spec fn rfind_char(s: Seq<char>, c: char) -> int
    decreases s.len(),
{
    if s.len() == 0 {
        -1
    } else if s.last() == c {
        s.len() - 1
    } else {
        rfind_char(s.drop_last(), c)
    }
}

proof fn lemma_rfind_char_at(s: Seq<char>, c: char, k: int)
    requires
        0 <= k < s.len(),
        s[k] == c,
        forall|j: int| k < j < s.len() ==> s[j] != c,
    ensures
        rfind_char(s, c) == k,
    decreases s.len(),
{
    if k == s.len() - 1 {
    } else {
        assert(s.last() != c);
        assert(s.drop_last() =~= s.take(s.len() - 1));
        lemma_rfind_char_at(s.take(s.len() - 1), c, k);
    }
}

proof fn lemma_rfind_char_none(s: Seq<char>, c: char)
    requires
        forall|j: int| 0 <= j < s.len() ==> s[j] != c,
    ensures
        rfind_char(s, c) == -1,
    decreases s.len(),
{
    if s.len() > 0 {
        assert(s.drop_last() =~= s.take(s.len() - 1));
        lemma_rfind_char_none(s.take(s.len() - 1), c);
    }
}

/// The last position of a character lies inside the text, when any.
pub proof fn lemma_rfind_char_bounds(s: Seq<char>, c: char)
    ensures
        -1 <= rfind_char(s, c) < s.len(),
    decreases s.len(),
{
    if s.len() > 0 && s.last() != c {
        lemma_rfind_char_bounds(s.drop_last(), c);
    }
}

/// Search for the last occurrence of a character.
pub fn rfind(s: &Vec<char>, c: char) -> (r: Option<usize>)
    ensures
        match r {
            Some(k) => rfind_char(s@, c) == k as int && k < s@.len(),
            None => rfind_char(s@, c) == -1,
        },
{
    let mut i: usize = s.len();
    while i > 0
        invariant
            0 <= i <= s.len(),
            forall|j: int| i <= j < s@.len() ==> s@[j] != c,
        decreases i,
    {
        i = i - 1;
        if s[i] == c {
            proof {
                lemma_rfind_char_at(s@, c, i as int);
            }
            return Some(i);
        }
    }
    proof {
        lemma_rfind_char_none(s@, c);
    }
    None
}

/// Copy of the range `[lo, hi)` of `s`.
pub fn subrange(s: &Vec<char>, lo: usize, hi: usize) -> (r: Vec<char>)
    requires
        lo <= hi <= s@.len(),
    ensures
        r@ == s@.subrange(lo as int, hi as int),
{
    let mut r: Vec<char> = Vec::new();
    let mut i: usize = lo;
    while i < hi
        invariant
            lo <= i <= hi <= s@.len(),
            r@ == s@.subrange(lo as int, i as int),
        decreases hi - i,
    {
        r.push(s[i]);
        assert(r@ =~= s@.subrange(lo as int, i + 1));
        i = i + 1;
    }
    r
}

/// A copy of `s`.
pub fn copy_text(s: &Vec<char>) -> (r: Vec<char>)
    ensures
        r@ == s@,
{
    let r = subrange(s, 0, s.len());
    assert(s@.subrange(0, s@.len() as int) =~= s@);
    r
}

/// The basename of a path: the text after the last `/`.
pub open spec fn basename_of(p: Seq<char>) -> Seq<char> {
    let j = rfind_char(p, '/');
    if j < 0 {
        p
    } else {
        p.skip(j + 1)
    }
}

/// The filestem of a path: its basename with the extension after the
/// last `.` removed, a leading `.` not counting as a separator.
pub open spec fn filestem_of(p: Seq<char>) -> Seq<char> {
    let b = basename_of(p);
    let j = rfind_char(b, '.');
    if j <= 0 {
        b
    } else {
        b.take(j)
    }
}

/// Compute the basename of a path.
pub fn basename(p: &Vec<char>) -> (r: Vec<char>)
    ensures
        r@ == basename_of(p@),
{
    let n = p.len();
    match rfind(p, '/') {
        Some(j) => {
            let r = subrange(p, j + 1, n);
            assert(p@.subrange(j + 1, p@.len() as int) =~= p@.skip(j + 1));
            r
        },
        None => copy_text(p),
    }
}

/// Compute the filestem of a path.
pub fn filestem(p: &Vec<char>) -> (r: Vec<char>)
    ensures
        r@ == filestem_of(p@),
{
    let b = basename(p);
    match rfind(&b, '.') {
        Some(j) => {
            if j == 0 {
                copy_text(&b)
            } else {
                let r = subrange(&b, 0, j);
                assert(b@.subrange(0, j as int) =~= b@.take(j as int));
                r
            }
        },
        None => copy_text(&b),
    }
}

/// The position of the first occurrence of character `c` in `s`, or `-1`.
pub open spec fn find_char(s: Seq<char>, c: char) -> int
    decreases s.len(),
{
    if s.len() == 0 {
        -1
    } else if s[0] == c {
        0
    } else {
        let r = find_char(s.skip(1), c);
        if r < 0 {
            -1
        } else {
            r + 1
        }
    }
}

pub proof fn lemma_find_char_at(s: Seq<char>, c: char, k: int)
    requires
        0 <= k < s.len(),
        s[k] == c,
        forall|j: int| 0 <= j < k ==> s[j] != c,
    ensures
        find_char(s, c) == k,
    decreases k,
{
    if k > 0 {
        lemma_find_char_at(s.skip(1), c, k - 1);
    }
}

pub proof fn lemma_find_char_none(s: Seq<char>, c: char)
    requires
        forall|j: int| 0 <= j < s.len() ==> s[j] != c,
    ensures
        find_char(s, c) == -1,
    decreases s.len(),
{
    if s.len() > 0 {
        lemma_find_char_none(s.skip(1), c);
    }
}

pub proof fn lemma_find_char_bounds(s: Seq<char>, c: char)
    ensures
        -1 <= find_char(s, c) < s.len(),
        find_char(s, c) >= 0 ==> s[find_char(s, c)] == c,
    decreases s.len(),
{
    if s.len() > 0 && s[0] != c {
        lemma_find_char_bounds(s.skip(1), c);
    }
}

/// Search for the first occurrence of a character.
pub fn find_char_exec(s: &Vec<char>, c: char) -> (r: Option<usize>)
    ensures
        match r {
            Some(k) => find_char(s@, c) == k as int && k < s@.len(),
            None => find_char(s@, c) == -1,
        },
{
    let mut i: usize = 0;
    while i < s.len()
        invariant
            0 <= i <= s.len(),
            forall|j: int| 0 <= j < i ==> s@[j] != c,
        decreases s.len() - i,
    {
        if s[i] == c {
            proof {
                lemma_find_char_at(s@, c, i as int);
            }
            return Some(i);
        }
        i = i + 1;
    }
    proof {
        lemma_find_char_none(s@, c);
    }
    None
}

/// The lines of `s`: the segments between newline characters. A final
/// newline terminates the last line and starts no new one.
pub open spec fn lines_of(s: Seq<char>) -> Seq<Seq<char>>
    decreases s.len(),
{
    if s.len() == 0 {
        seq![]
    } else {
        let j = find_char(s, '\n');
        if 0 <= j < s.len() {
            seq![s.take(j)] + lines_of(s.skip(j + 1))
        } else {
            seq![s]
        }
    }
}

/// Split a text into its lines, omitting the newline characters.
pub fn split_lines(s: &Vec<char>) -> (r: Vec<Vec<char>>)
    ensures
        r.deep_view() == lines_of(s@),
{
    let n = s.len();
    let mut acc: Vec<Vec<char>> = Vec::new();
    let mut cur: Vec<char> = Vec::new();
    let mut start: usize = 0;
    let mut i: usize = 0;
    proof {
        assert(s@.skip(0) =~= s@);
        assert(acc.deep_view() =~= Seq::<Seq<char>>::empty());
        assert(acc.deep_view() + lines_of(s@) =~= lines_of(s@));
        assert(cur@ =~= s@.subrange(0, 0));
    }
    while i < n
        invariant
            0 <= start <= i <= n,
            n == s@.len(),
            cur@ == s@.subrange(start as int, i as int),
            forall|j: int| start <= j < i ==> s@[j] != '\n',
            lines_of(s@) == acc.deep_view() + lines_of(s@.skip(start as int)),
        decreases n - i,
    {
        if s[i] == '\n' {
            proof {
                let tail = s@.skip(start as int);
                assert(tail[i - start] == '\n');
                assert forall|j: int| 0 <= j < i - start implies tail[j] != '\n' by {
                    assert(tail[j] == s@[start + j]);
                }
                lemma_find_char_at(tail, '\n', i - start);
                assert(tail.take(i - start) =~= s@.subrange(start as int, i as int));
                assert(tail.skip(i - start + 1) =~= s@.skip(i + 1));
                assert(lines_of(tail) == seq![cur@] + lines_of(s@.skip(i + 1)));
            }
            let ghost old_acc = acc.deep_view();
            acc.push(cur);
            proof {
                assert(acc.deep_view() =~~= old_acc.push(cur@));
                assert(old_acc + (seq![cur@] + lines_of(s@.skip(i + 1))) =~= old_acc.push(cur@)
                    + lines_of(s@.skip(i + 1)));
            }
            cur = Vec::new();
            start = i + 1;
            assert(cur@ =~= s@.subrange(start as int, start as int));
        } else {
            cur.push(s[i]);
            assert(cur@ =~= s@.subrange(start as int, i + 1));
        }
        i = i + 1;
    }
    if start < n {
        proof {
            let tail = s@.skip(start as int);
            assert(forall|j: int| 0 <= j < tail.len() ==> tail[j] == s@[start + j]);
            lemma_find_char_none(tail, '\n');
            assert(tail =~= s@.subrange(start as int, n as int));
            assert(lines_of(tail) == seq![cur@]);
        }
        let ghost old_acc = acc.deep_view();
        acc.push(cur);
        proof {
            assert(acc.deep_view() =~~= old_acc.push(cur@));
            assert(old_acc + seq![cur@] =~= old_acc.push(cur@));
        }
    } else {
        proof {
            assert(s@.skip(start as int).len() == 0);
            assert(acc.deep_view() + lines_of(s@.skip(start as int)) =~= acc.deep_view());
        }
    }
    acc
}

} // verus!
