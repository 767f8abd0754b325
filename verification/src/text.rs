//! Character-level text primitives used by the parsers, each with the
//! mathematical meaning of the std operation it stands for.
use vstd::prelude::*;

verus! {

broadcast use vstd::string::group_string_axioms;

// ---------------------------------------------------------------------------
// Character classes
// ---------------------------------------------------------------------------

/// The code point of `c`.
pub fn code_point(c: char) -> (r: u32)
    ensures
        r as int == c as int,
{
    c as u32
}

/// Unicode `White_Space`, the class that `char::is_whitespace`, `str::trim`
/// and `str::split_whitespace` use.
pub open spec fn is_ws(c: char) -> bool {
    let u = c as int;
    ||| 0x09 <= u <= 0x0d
    ||| u == 0x20
    ||| u == 0x85
    ||| u == 0xa0
    ||| u == 0x1680
    ||| 0x2000 <= u <= 0x200a
    ||| u == 0x2028
    ||| u == 0x2029
    ||| u == 0x202f
    ||| u == 0x205f
    ||| u == 0x3000
}

pub fn is_whitespace(c: char) -> (b: bool)
    ensures
        b == is_ws(c),
{
    let u = c as u32;
    (0x09 <= u && u <= 0x0d) || u == 0x20 || u == 0x85 || u == 0xa0 || u == 0x1680 || (0x2000
        <= u && u <= 0x200a) || u == 0x2028 || u == 0x2029 || u == 0x202f || u == 0x205f || u
        == 0x3000
}

/// `char::is_ascii_alphanumeric`.
pub open spec fn is_alnum(c: char) -> bool {
    let u = c as int;
    ||| 0x30 <= u <= 0x39
    ||| 0x41 <= u <= 0x5a
    ||| 0x61 <= u <= 0x7a
}

pub fn is_ascii_alphanumeric(c: char) -> (b: bool)
    ensures
        b == is_alnum(c),
{
    let u = c as u32;
    (0x30 <= u && u <= 0x39) || (0x41 <= u && u <= 0x5a) || (0x61 <= u && u <= 0x7a)
}

// ---------------------------------------------------------------------------
// Conversions between `str`/`String` and characters
// ---------------------------------------------------------------------------

/// The characters of `s`, in order.
pub fn chars_of(s: &str) -> (v: Vec<char>)
    ensures
        v@ == s@,
{
    let mut v: Vec<char> = Vec::new();
    for c in it: s.chars()
        invariant
            v@ == it.seq().take(it.index()),
            it.seq() == s@,
    {
        v.push(c);
    }
    v
}

/// Builds an owned string holding exactly the given characters
/// (std's `String: FromIterator<&char>`).
#[verifier::external_body]
pub(crate) fn string_from_chars(chars: &[char]) -> (s: String)
    ensures
        s@ == chars@,
{
    chars.iter().collect()
}

/// The characters `s[lo..hi]`, copied.
pub fn slice_of(s: &Vec<char>, lo: usize, hi: usize) -> (r: Vec<char>)
    requires
        lo <= hi <= s.len(),
    ensures
        r@ == s@.subrange(lo as int, hi as int),
{
    let mut r: Vec<char> = Vec::new();
    let mut i = lo;
    while i < hi
        invariant
            lo <= i <= hi <= s.len(),
            r@ == s@.subrange(lo as int, i as int),
        decreases hi - i,
    {
        r.push(s[i]);
        i += 1;
        assert(r@ =~= s@.subrange(lo as int, i as int));
    }
    r
}

/// Appends the characters of `b` to `a`.
pub fn push_all(a: &mut Vec<char>, b: &Vec<char>)
    ensures
        final(a)@ == old(a)@ + b@,
{
    let ghost a0 = a@;
    let mut i: usize = 0;
    while i < b.len()
        invariant
            i <= b.len(),
            a@ == a0 + b@.take(i as int),
        decreases b.len() - i,
    {
        a.push(b[i]);
        i += 1;
        assert(a@ =~= a0 + b@.take(i as int));
    }
    assert(b@.take(b.len() as int) =~= b@);
}

/// Appends the characters of `b` to `a`.
pub fn push_str(a: &mut Vec<char>, b: &str)
    ensures
        final(a)@ == old(a)@ + b@,
{
    let v = chars_of(b);
    push_all(a, &v);
}

/// Whether two character sequences are equal.
pub fn chars_eq(a: &Vec<char>, b: &Vec<char>) -> (r: bool)
    ensures
        r == (a@ == b@),
{
    if a.len() != b.len() {
        return false;
    }
    let mut i: usize = 0;
    while i < a.len()
        invariant
            i <= a.len() == b.len(),
            forall|j: int| 0 <= j < i ==> a@[j] == b@[j],
        decreases a.len() - i,
    {
        if a[i] != b[i] {
            return false;
        }
        i += 1;
    }
    assert(a@ =~= b@);
    true
}

/// Whether the characters of `a` spell `b`.
pub fn chars_eq_str(a: &Vec<char>, b: &str) -> (r: bool)
    ensures
        r == (a@ == b@),
{
    let v = chars_of(b);
    chars_eq(a, &v)
}

// ---------------------------------------------------------------------------
// Prefixes, suffixes, occurrences
// ---------------------------------------------------------------------------

pub open spec fn starts_with(s: Seq<char>, p: Seq<char>) -> bool {
    p.len() <= s.len() && s.take(p.len() as int) == p
}

pub open spec fn ends_with(s: Seq<char>, p: Seq<char>) -> bool {
    p.len() <= s.len() && s.skip(s.len() - p.len()) == p
}

/// `n` occurs in `s` at index `i`.
pub open spec fn occurs_at(s: Seq<char>, n: Seq<char>, i: int) -> bool {
    0 <= i && i + n.len() <= s.len() && s.subrange(i, i + n.len()) == n
}

/// `str::contains` with a string pattern.
pub open spec fn contains(s: Seq<char>, n: Seq<char>) -> bool {
    exists|i: int| occurs_at(s, n, i)
}

/// `str::find` with a string pattern: the first index at which `n` occurs.
pub open spec fn find(s: Seq<char>, n: Seq<char>) -> Option<int>
    decreases s.len(),
{
    if n.len() > s.len() {
        None
    } else if s.take(n.len() as int) == n {
        Some(0)
    } else if s.len() == 0 {
        None
    } else {
        match find(s.drop_first(), n) {
            Some(k) => Some(k + 1),
            None => None,
        }
    }
}

pub proof fn lemma_find(s: Seq<char>, n: Seq<char>)
    ensures
        match find(s, n) {
            Some(k) => occurs_at(s, n, k) && forall|j: int| 0 <= j < k ==> !occurs_at(s, n, j),
            None => forall|j: int| !occurs_at(s, n, j),
        },
        find(s, n) is Some <==> contains(s, n),
    decreases s.len(),
{
    if n.len() > s.len() {
    } else if s.take(n.len() as int) == n {
        assert(s.subrange(0, n.len() as int) =~= s.take(n.len() as int));
    } else if s.len() == 0 {
        assert(s.take(n.len() as int) =~= n);
    } else {
        assert(!occurs_at(s, n, 0)) by {
            assert(s.subrange(0, n.len() as int) =~= s.take(n.len() as int));
        }
        lemma_find(s.drop_first(), n);
        assert forall|j: int| 1 <= j implies occurs_at(s, n, j) == occurs_at(
            s.drop_first(),
            n,
            j - 1,
        ) by {
            if 0 <= j - 1 && j - 1 + n.len() <= s.drop_first().len() {
                assert(s.drop_first().subrange(j - 1, j - 1 + n.len()) =~= s.subrange(
                    j,
                    j + n.len(),
                ));
            }
        }
        match find(s.drop_first(), n) {
            Some(k) => {
                assert forall|j: int| 0 <= j < k + 1 implies !occurs_at(s, n, j) by {
                    if j >= 1 {
                        assert(!occurs_at(s.drop_first(), n, j - 1));
                    }
                }
            },
            None => {
                assert forall|j: int| !occurs_at(s, n, j) by {
                    if j >= 1 {
                        assert(!occurs_at(s.drop_first(), n, j - 1));
                    }
                }
            },
        }
    }
    if contains(s, n) {
        let j = choose|j: int| occurs_at(s, n, j);
        assert(occurs_at(s, n, j));
    }
    if let Some(k) = find(s, n) {
        assert(occurs_at(s, n, k));
    }
}

/// Whether `n` occurs in `s` at index `i`.
pub fn occurs_at_exec(s: &Vec<char>, n: &Vec<char>, i: usize) -> (r: bool)
    ensures
        r == occurs_at(s@, n@, i as int),
{
    if n.len() > s.len() || i > s.len() - n.len() {
        return false;
    }
    let mut j: usize = 0;
    while j < n.len()
        invariant
            j <= n.len(),
            i + n.len() <= s.len(),
            forall|k: int| 0 <= k < j ==> s@[i + k] == n@[k],
        decreases n.len() - j,
    {
        if s[i + j] != n[j] {
            assert(s@.subrange(i as int, i + n.len())[j as int] != n@[j as int]);
            return false;
        }
        j += 1;
    }
    assert(s@.subrange(i as int, i + n.len()) =~= n@);
    true
}

/// `str::find`.
pub fn find_chars(s: &Vec<char>, n: &Vec<char>) -> (r: Option<usize>)
    ensures
        match r {
            Some(k) => find(s@, n@) == Some(k as int),
            None => find(s@, n@) is None,
        },
{
    if n.len() > s.len() {
        return None;
    }
    let last = s.len() - n.len();
    let mut i: usize = 0;
    loop
        invariant
            n.len() <= s.len(),
            last == s.len() - n.len(),
            i <= last,
            forall|j: int| 0 <= j < i ==> !occurs_at(s@, n@, j),
        ensures
            forall|j: int| 0 <= j <= last ==> !occurs_at(s@, n@, j),
        decreases last - i,
    {
        if occurs_at_exec(s, n, i) {
            proof {
                lemma_find(s@, n@);
            }
            return Some(i);
        }
        if i == last {
            break;
        }
        i += 1;
    }
    proof {
        lemma_find(s@, n@);
        if find(s@, n@) is Some {
            let k = find(s@, n@)->0;
            assert(occurs_at(s@, n@, k));
        }
    }
    None
}

/// `str::contains` with a string pattern.
pub fn contains_str(s: &Vec<char>, n: &str) -> (r: bool)
    ensures
        r == contains(s@, n@),
{
    let nv = chars_of(n);
    let f = find_chars(s, &nv);
    proof {
        lemma_find(s@, n@);
    }
    f.is_some()
}

/// `str::starts_with` with a string pattern.
pub fn starts_with_str(s: &Vec<char>, p: &str) -> (r: bool)
    ensures
        r == starts_with(s@, p@),
{
    let pv = chars_of(p);
    let r = occurs_at_exec(s, &pv, 0);
    assert(s@.subrange(0, pv@.len() as int) =~= s@.take(pv@.len() as int));
    r
}

/// `str::ends_with` with a string pattern.
pub fn ends_with_str(s: &Vec<char>, p: &str) -> (r: bool)
    ensures
        r == ends_with(s@, p@),
{
    let pv = chars_of(p);
    if pv.len() > s.len() {
        return false;
    }
    let r = occurs_at_exec(s, &pv, s.len() - pv.len());
    assert(s@.subrange(s.len() - pv.len(), s.len() as int) =~= s@.skip(s.len() - pv.len()));
    r
}

// ---------------------------------------------------------------------------
// Single characters
// ---------------------------------------------------------------------------

/// Index of the first `c` in `s`, or `s.len()` when there is none.
pub open spec fn index_of(s: Seq<char>, c: char) -> int
    decreases s.len(),
{
    if s.len() == 0 {
        0
    } else if s[0] == c {
        0
    } else {
        1 + index_of(s.drop_first(), c)
    }
}

pub proof fn lemma_index_of(s: Seq<char>, c: char)
    ensures
        0 <= index_of(s, c) <= s.len(),
        index_of(s, c) < s.len() ==> s[index_of(s, c)] == c,
        forall|j: int| 0 <= j < index_of(s, c) ==> s[j] != c,
    decreases s.len(),
{
    if s.len() > 0 && s[0] != c {
        lemma_index_of(s.drop_first(), c);
        assert forall|j: int| 0 <= j < index_of(s, c) implies s[j] != c by {
            if j > 0 {
                assert(s[j] == s.drop_first()[j - 1]);
            }
        }
    }
}

pub proof fn lemma_index_of_unique(s: Seq<char>, c: char, k: int)
    requires
        0 <= k <= s.len(),
        k < s.len() ==> s[k] == c,
        forall|j: int| 0 <= j < k ==> s[j] != c,
    ensures
        index_of(s, c) == k,
    decreases s.len(),
{
    if s.len() > 0 && s[0] != c {
        assert forall|j: int| 0 <= j < k - 1 implies s.drop_first()[j] != c by {
            assert(s.drop_first()[j] == s[j + 1]);
        }
        lemma_index_of_unique(s.drop_first(), c, k - 1);
    }
}

/// Index of the first `c` in `s[from..]`, or `s.len()` when there is none.
pub fn index_of_from(s: &Vec<char>, c: char, from: usize) -> (r: usize)
    requires
        from <= s.len(),
    ensures
        r == from + index_of(s@.skip(from as int), c),
        from <= r <= s.len(),
{
    let mut i = from;
    while i < s.len()
        invariant
            from <= i <= s.len(),
            forall|j: int| from <= j < i ==> s@[j] != c,
        ensures
            from <= i <= s.len(),
            forall|j: int| from <= j < i ==> s@[j] != c,
            i < s.len() ==> s@[i as int] == c,
        decreases s.len() - i,
    {
        if s[i] == c {
            break;
        }
        i += 1;
    }
    proof {
        let t = s@.skip(from as int);
        assert forall|j: int| 0 <= j < i - from implies t[j] != c by {
            assert(t[j] == s@[from + j]);
        }
        if i < s.len() {
            assert(t[i - from] == s@[i as int]);
        }
        lemma_index_of_unique(t, c, i - from);
    }
    i
}

/// Index of the last `c` in `s`, if any.
pub open spec fn last_index_of(s: Seq<char>, c: char) -> Option<int>
    decreases s.len(),
{
    if s.len() == 0 {
        None
    } else if s.last() == c {
        Some(s.len() - 1)
    } else {
        last_index_of(s.drop_last(), c)
    }
}

pub proof fn lemma_last_index_of(s: Seq<char>, c: char)
    ensures
        match last_index_of(s, c) {
            Some(k) => 0 <= k < s.len() && s[k] == c && forall|j: int| k < j < s.len() ==> s[j]
                != c,
            None => forall|j: int| 0 <= j < s.len() ==> s[j] != c,
        },
    decreases s.len(),
{
    if s.len() > 0 && s.last() != c {
        lemma_last_index_of(s.drop_last(), c);
        assert forall|j: int| 0 <= j < s.len() - 1 implies s.drop_last()[j] == s[j] by {}
    }
}

/// `str::rfind` with a character pattern.
pub fn last_index_of_exec(s: &Vec<char>, c: char) -> (r: Option<usize>)
    ensures
        match r {
            Some(k) => last_index_of(s@, c) == Some(k as int),
            None => last_index_of(s@, c) is None,
        },
{
    let mut i = s.len();
    assert(s@.take(i as int) =~= s@);
    while i > 0
        invariant
            i <= s.len(),
            last_index_of(s@, c) == last_index_of(s@.take(i as int), c),
        decreases i,
    {
        if s[i - 1] == c {
            return Some(i - 1);
        }
        assert(s@.take(i as int).drop_last() =~= s@.take(i - 1));
        i -= 1;
    }
    None
}

// ---------------------------------------------------------------------------
// Trimming
// ---------------------------------------------------------------------------

/// `str::trim_start`.
pub open spec fn trim_start(s: Seq<char>) -> Seq<char>
    decreases s.len(),
{
    if s.len() > 0 && is_ws(s[0]) {
        trim_start(s.drop_first())
    } else {
        s
    }
}

/// `str::trim_end`.
pub open spec fn trim_end(s: Seq<char>) -> Seq<char>
    decreases s.len(),
{
    if s.len() > 0 && is_ws(s.last()) {
        trim_end(s.drop_last())
    } else {
        s
    }
}

/// `str::trim`.
pub open spec fn trim(s: Seq<char>) -> Seq<char> {
    trim_end(trim_start(s))
}

/// `str::trim`.
pub fn trim_chars(s: &Vec<char>) -> (r: Vec<char>)
    ensures
        r@ == trim(s@),
{
    let mut lo: usize = 0;
    assert(s@.skip(0) =~= s@);
    while lo < s.len() && is_whitespace(s[lo])
        invariant
            lo <= s.len(),
            trim_start(s@) == trim_start(s@.skip(lo as int)),
        decreases s.len() - lo,
    {
        assert(s@.skip(lo as int).drop_first() =~= s@.skip(lo + 1));
        lo += 1;
    }
    let mut hi: usize = s.len();
    assert(s@.skip(lo as int) =~= s@.subrange(lo as int, hi as int));
    while hi > lo && is_whitespace(s[hi - 1])
        invariant
            lo <= hi <= s.len(),
            trim(s@) == trim_end(s@.subrange(lo as int, hi as int)),
            trim_start(s@) == s@.skip(lo as int),
        decreases hi,
    {
        assert(s@.subrange(lo as int, hi as int).drop_last() =~= s@.subrange(lo as int, hi - 1));
        hi -= 1;
    }
    slice_of(s, lo, hi)
}

/// `str::trim_matches` with a character pattern.
pub open spec fn trim_char(s: Seq<char>, c: char) -> Seq<char> {
    trim_end_char(trim_start_char(s, c), c)
}

/// `str::trim_start_matches` with a character pattern.
pub open spec fn trim_start_char(s: Seq<char>, c: char) -> Seq<char>
    decreases s.len(),
{
    if s.len() > 0 && s[0] == c {
        trim_start_char(s.drop_first(), c)
    } else {
        s
    }
}

/// `str::trim_end_matches` with a character pattern.
pub open spec fn trim_end_char(s: Seq<char>, c: char) -> Seq<char>
    decreases s.len(),
{
    if s.len() > 0 && s.last() == c {
        trim_end_char(s.drop_last(), c)
    } else {
        s
    }
}

/// `str::trim_start_matches` with a character pattern.
pub fn trim_start_char_exec(s: &Vec<char>, c: char) -> (r: Vec<char>)
    ensures
        r@ == trim_start_char(s@, c),
{
    let mut lo: usize = 0;
    assert(s@.skip(0) =~= s@);
    while lo < s.len() && s[lo] == c
        invariant
            lo <= s.len(),
            trim_start_char(s@, c) == trim_start_char(s@.skip(lo as int), c),
        decreases s.len() - lo,
    {
        assert(s@.skip(lo as int).drop_first() =~= s@.skip(lo + 1));
        lo += 1;
    }
    assert(s@.skip(lo as int) =~= s@.subrange(lo as int, s.len() as int));
    slice_of(s, lo, s.len())
}

/// `str::trim_end_matches` with a character pattern.
pub fn trim_end_char_exec(s: &Vec<char>, c: char) -> (r: Vec<char>)
    ensures
        r@ == trim_end_char(s@, c),
{
    let mut hi: usize = s.len();
    assert(s@ =~= s@.take(hi as int));
    while hi > 0 && s[hi - 1] == c
        invariant
            hi <= s.len(),
            trim_end_char(s@, c) == trim_end_char(s@.take(hi as int), c),
        decreases hi,
    {
        assert(s@.take(hi as int).drop_last() =~= s@.take(hi - 1));
        hi -= 1;
    }
    assert(s@.take(hi as int) =~= s@.subrange(0, hi as int));
    slice_of(s, 0, hi)
}

/// `str::trim_matches` with a character pattern.
pub fn trim_char_exec(s: &Vec<char>, c: char) -> (r: Vec<char>)
    ensures
        r@ == trim_char(s@, c),
{
    let a = trim_start_char_exec(s, c);
    trim_end_char_exec(&a, c)
}


// ---------------------------------------------------------------------------
// Splitting
// ---------------------------------------------------------------------------

/// The sequence of character sequences held by a vector of character vectors.
pub open spec fn views(v: Seq<Vec<char>>) -> Seq<Seq<char>> {
    v.map_values(|l: Vec<char>| l@)
}

pub proof fn lemma_views_push(v: Seq<Vec<char>>, x: Vec<char>)
    ensures
        views(v.push(x)) == views(v).push(x@),
{
    assert(views(v.push(x)) =~= views(v).push(x@));
}

/// Drops one `'\r'` that ends a line.
pub open spec fn strip_cr(raw: Seq<char>) -> Seq<char> {
    if raw.len() > 0 && raw.last() == '\r' {
        raw.drop_last()
    } else {
        raw
    }
}

/// `str::lines`: pieces between `'\n'`, a final empty piece dropped, and a
/// `'\r'` before each `'\n'` removed.
pub open spec fn lines(s: Seq<char>) -> Seq<Seq<char>>
    decreases s.len(),
{
    if s.len() == 0 {
        seq![]
    } else {
        let e = index_of(s, '\n');
        proof {
            lemma_index_of(s, '\n');
        }
        if e < s.len() {
            seq![strip_cr(s.take(e))] + lines(s.skip(e + 1))
        } else {
            seq![s]
        }
    }
}

/// `str::lines`.
pub fn lines_of(s: &Vec<char>) -> (r: Vec<Vec<char>>)
    ensures
        views(r@) == lines(s@),
{
    let mut r: Vec<Vec<char>> = Vec::new();
    let mut i: usize = 0;
    assert(s@.skip(0) =~= s@);
    while i < s.len()
        invariant
            i <= s.len(),
            views(r@) + lines(s@.skip(i as int)) == lines(s@),
        decreases s.len() - i,
    {
        let ghost t = s@.skip(i as int);
        let e = index_of_from(s, '\n', i);
        proof {
            lemma_index_of(t, '\n');
        }
        if e < s.len() {
            let raw = slice_of(s, i, e);
            let line = if e > i && raw[raw.len() - 1] == '\r' {
                slice_of(&raw, 0, raw.len() - 1)
            } else {
                raw
            };
            proof {
                assert(t.take(e - i) =~= raw@);
                assert(t.skip(e - i + 1) =~= s@.skip(e + 1));
                if e > i && raw@.last() == '\r' {
                    assert(raw@.drop_last() =~= raw@.subrange(0, raw.len() - 1));
                }
                assert(line@ == strip_cr(t.take(e - i)));
                lemma_views_push(r@, line);
                assert(lines(t) == seq![line@] + lines(s@.skip(e + 1)));
                assert(views(r@.push(line)) + lines(s@.skip(e + 1)) =~= views(r@) + lines(t));
            }
            r.push(line);
            i = e + 1;
        } else {
            let line = slice_of(s, i, s.len());
            proof {
                assert(t =~= line@);
                lemma_views_push(r@, line);
                assert(s@.skip(s.len() as int) =~= Seq::<char>::empty());
                assert(lines(s@.skip(s.len() as int)) =~= Seq::<Seq<char>>::empty());
                assert(views(r@.push(line)) + lines(s@.skip(s.len() as int)) =~= views(r@) + lines(
                    t,
                ));
            }
            r.push(line);
            i = s.len();
        }
    }
    proof {
        assert(s@.skip(i as int) =~= Seq::<char>::empty());
        assert(views(r@) + lines(s@.skip(i as int)) =~= views(r@));
    }
    r
}

/// `filter_map` of a concatenation is the concatenation of the two.
pub proof fn lemma_filter_map_add<A, B>(x: Seq<A>, y: Seq<A>, f: spec_fn(A) -> Option<B>)
    ensures
        (x + y).filter_map(f) == x.filter_map(f) + y.filter_map(f),
    decreases y.len(),
{
    if y.len() == 0 {
        assert(x + y =~= x);
        assert(x.filter_map(f) + y.filter_map(f) =~= x.filter_map(f));
    } else {
        lemma_filter_map_add(x, y.drop_last(), f);
        assert((x + y).drop_last() =~= x + y.drop_last());
        assert((x + y).last() == y.last());
        match f(y.last()) {
            Some(v) => {
                assert(x.filter_map(f) + y.drop_last().filter_map(f) + seq![v] =~= x.filter_map(f)
                    + (y.drop_last().filter_map(f) + seq![v]));
            },
            None => {},
        }
    }
}

/// A single line adds what `f` makes of it.
proof fn lemma_filter_map_cons<B>(h: Seq<char>, t: Seq<Seq<char>>, f: spec_fn(Seq<char>) -> Option<B>)
    ensures
        (seq![h] + t).filter_map(f) == (match f(h) {
            Some(v) => seq![v],
            None => Seq::<B>::empty(),
        }) + t.filter_map(f),
{
    lemma_filter_map_add(seq![h], t, f);
    Seq::lemma_filter_map_singleton(h, f);
}

/// Whatever `f` makes of the lines of `a`, a newline and `b`, it makes of
/// the lines of `a`, then of those of `b`, when `f` finds nothing in an
/// empty line and `a`'s last line reads the same without a final `'\r'`.
pub proof fn lemma_lines_join<B>(a: Seq<char>, b: Seq<char>, f: spec_fn(Seq<char>) -> Option<B>)
    requires
        f(Seq::<char>::empty()) is None,
        !(a.len() > 0 && a.last() == '\r') || (forall|x: Seq<char>| #[trigger] f(strip_cr(x))
            == f(x)),
    ensures
        lines(a + seq!['\n'] + b).filter_map(f) == lines(a).filter_map(f) + lines(b).filter_map(f),
    decreases a.len(),
{
    let c = a + seq!['\n'] + b;
    lemma_index_of(a, '\n');
    let e = index_of(a, '\n');
    assert forall|j: int| 0 <= j < e implies c[j] != '\n' by {
        assert(c[j] == a[j]);
    }
    lemma_index_of_unique(c, '\n', e);
    lemma_index_of(c, '\n');
    assert(index_of(c, '\n') == e);
    if a.len() == 0 {
        assert(c.take(0) =~= Seq::<char>::empty());
        assert(c.skip(1) =~= b);
        assert(lines(c) == seq![strip_cr(c.take(0))] + lines(c.skip(1)));
        lemma_filter_map_cons(Seq::<char>::empty(), lines(b), f);
        assert(lines(a) =~= Seq::<Seq<char>>::empty());
        assert(lines(a).filter_map(f) + lines(b).filter_map(f) =~= lines(b).filter_map(f));
        assert(Seq::<B>::empty() + lines(b).filter_map(f) =~= lines(b).filter_map(f));
    } else if e < a.len() {
        let a2 = a.skip(e + 1);
        assert(c.take(e) =~= a.take(e));
        assert(c.skip(e + 1) =~= a2 + seq!['\n'] + b);
        let h = strip_cr(a.take(e));
        assert(lines(c) == seq![h] + lines(a2 + seq!['\n'] + b));
        assert(lines(a) == seq![h] + lines(a2));
        if a2.len() > 0 {
            assert(a2.last() == a.last());
        }
        lemma_lines_join(a2, b, f);
        lemma_filter_map_cons(h, lines(a2 + seq!['\n'] + b), f);
        lemma_filter_map_cons(h, lines(a2), f);
        let hd = match f(h) {
            Some(v) => seq![v],
            None => Seq::<B>::empty(),
        };
        assert(hd + (lines(a2).filter_map(f) + lines(b).filter_map(f)) =~= hd + lines(
            a2,
        ).filter_map(f) + lines(b).filter_map(f));
    } else {
        assert(c.take(e) =~= a);
        assert(c.skip(e + 1) =~= b);
        assert(lines(c) == seq![strip_cr(a)] + lines(b));
        assert(lines(a) == seq![a]);
        lemma_filter_map_cons(strip_cr(a), lines(b), f);
        lemma_filter_map_cons(a, Seq::<Seq<char>>::empty(), f);
        assert(seq![a] + Seq::<Seq<char>>::empty() =~= seq![a]);
        assert(f(strip_cr(a)) == f(a));
        let hd = match f(a) {
            Some(v) => seq![v],
            None => Seq::<B>::empty(),
        };
        assert(hd + Seq::<Seq<char>>::empty().filter_map(f) =~= hd);
    }
}

/// Whatever `f` makes of the lines of `a`, `"\r\n"` and `b`, it makes of
/// the lines of `a`, then of those of `b`, when `f` finds nothing in an
/// empty line.
pub proof fn lemma_lines_join_crlf<B>(a: Seq<char>, b: Seq<char>, f: spec_fn(Seq<char>) -> Option<B>)
    requires
        f(Seq::<char>::empty()) is None,
    ensures
        lines(a + seq!['\r', '\n'] + b).filter_map(f) == lines(a).filter_map(f) + lines(
            b,
        ).filter_map(f),
    decreases a.len(),
{
    let c = a + seq!['\r', '\n'] + b;
    lemma_index_of(a, '\n');
    let e = index_of(a, '\n');
    if e < a.len() {
        assert forall|j: int| 0 <= j < e implies c[j] != '\n' by {
            assert(c[j] == a[j]);
        }
        assert(c[e] == a[e]);
        lemma_index_of_unique(c, '\n', e);
        let a2 = a.skip(e + 1);
        assert(c.take(e) =~= a.take(e));
        assert(c.skip(e + 1) =~= a2 + seq!['\r', '\n'] + b);
        let h = strip_cr(a.take(e));
        assert(lines(c) == seq![h] + lines(a2 + seq!['\r', '\n'] + b));
        assert(lines(a) == seq![h] + lines(a2));
        lemma_lines_join_crlf(a2, b, f);
        lemma_filter_map_cons(h, lines(a2 + seq!['\r', '\n'] + b), f);
        lemma_filter_map_cons(h, lines(a2), f);
        let hd = match f(h) {
            Some(v) => seq![v],
            None => Seq::<B>::empty(),
        };
        assert(hd + (lines(a2).filter_map(f) + lines(b).filter_map(f)) =~= hd + lines(
            a2,
        ).filter_map(f) + lines(b).filter_map(f));
    } else {
        let k: int = a.len() as int + 1;
        assert forall|j: int| 0 <= j < k implies c[j] != '\n' by {
            if j < a.len() {
                assert(c[j] == a[j]);
            }
        }
        assert(c[k] == '\n');
        lemma_index_of_unique(c, '\n', k);
        assert(c.take(k) =~= a.push('\r'));
        assert(a.push('\r').drop_last() =~= a);
        assert(strip_cr(c.take(k)) == a);
        assert(c.skip(k + 1) =~= b);
        assert(lines(c) == seq![a] + lines(b));
        lemma_filter_map_cons(a, lines(b), f);
        if a.len() == 0 {
            assert(a =~= Seq::<char>::empty());
            assert(lines(a) =~= Seq::<Seq<char>>::empty());
            assert(Seq::<B>::empty() + lines(b).filter_map(f) =~= lines(b).filter_map(f));
            assert(lines(a).filter_map(f) + lines(b).filter_map(f) =~= lines(b).filter_map(f));
        } else {
            assert(lines(a) == seq![a]);
            lemma_filter_map_cons(a, Seq::<Seq<char>>::empty(), f);
            assert(seq![a] + Seq::<Seq<char>>::empty() =~= seq![a]);
            let hd = match f(a) {
                Some(v) => seq![v],
                None => Seq::<B>::empty(),
            };
            assert(hd + Seq::<Seq<char>>::empty().filter_map(f) =~= hd);
        }
    }
}

proof fn lemma_trim_start_push_ws(x: Seq<char>, c: char)
    requires
        is_ws(c),
    ensures
        trim_start(x.push(c)) == if trim_start(x).len() == 0 {
            Seq::<char>::empty()
        } else {
            trim_start(x).push(c)
        },
    decreases x.len(),
{
    if x.len() == 0 {
        assert(x.push(c).drop_first() =~= Seq::<char>::empty());
        assert(trim_start(Seq::<char>::empty()) == Seq::<char>::empty());
        assert(trim_start(x.push(c)) == trim_start(x.push(c).drop_first()));
    } else if is_ws(x[0]) {
        assert(x.push(c).drop_first() =~= x.drop_first().push(c));
        assert(x.push(c)[0] == x[0]);
        lemma_trim_start_push_ws(x.drop_first(), c);
    } else {
        assert(x.push(c)[0] == x[0]);
    }
}

/// A `'\r'` that ends a line makes no difference once the line is trimmed.
pub proof fn lemma_trim_strip_cr(x: Seq<char>)
    ensures
        trim(strip_cr(x)) == trim(x),
{
    if x.len() > 0 && x.last() == '\r' {
        let y = x.drop_last();
        assert(y.push('\r') =~= x);
        lemma_trim_start_push_ws(y, '\r');
        if trim_start(y).len() > 0 {
            assert(trim_start(y).push('\r').drop_last() =~= trim_start(y));
        }
    }
}

/// Index of the first whitespace character of `s`, or `s.len()`.
pub open spec fn ws_index(s: Seq<char>) -> int
    decreases s.len(),
{
    if s.len() == 0 {
        0
    } else if is_ws(s[0]) {
        0
    } else {
        1 + ws_index(s.drop_first())
    }
}

pub proof fn lemma_ws_index(s: Seq<char>)
    ensures
        0 <= ws_index(s) <= s.len(),
        ws_index(s) < s.len() ==> is_ws(s[ws_index(s)]),
        forall|j: int| 0 <= j < ws_index(s) ==> !is_ws(s[j]),
    decreases s.len(),
{
    if s.len() > 0 && !is_ws(s[0]) {
        lemma_ws_index(s.drop_first());
        assert forall|j: int| 0 <= j < ws_index(s) implies !is_ws(s[j]) by {
            if j > 0 {
                assert(s[j] == s.drop_first()[j - 1]);
            }
        }
    }
}

pub proof fn lemma_ws_index_unique(s: Seq<char>, k: int)
    requires
        0 <= k <= s.len(),
        k < s.len() ==> is_ws(s[k]),
        forall|j: int| 0 <= j < k ==> !is_ws(s[j]),
    ensures
        ws_index(s) == k,
    decreases s.len(),
{
    if s.len() > 0 && !is_ws(s[0]) {
        assert forall|j: int| 0 <= j < k - 1 implies !is_ws(s.drop_first()[j]) by {
            assert(s.drop_first()[j] == s[j + 1]);
        }
        lemma_ws_index_unique(s.drop_first(), k - 1);
    }
}

/// `str::split_whitespace`: the maximal runs of non-whitespace characters.
pub open spec fn words(s: Seq<char>) -> Seq<Seq<char>>
    decreases s.len(),
{
    if s.len() == 0 {
        seq![]
    } else if is_ws(s[0]) {
        words(s.drop_first())
    } else {
        let k = ws_index(s);
        proof {
            lemma_ws_index(s);
        }
        seq![s.take(k)] + words(s.skip(k))
    }
}

/// `str::split_whitespace`.
pub fn words_of(s: &Vec<char>) -> (r: Vec<Vec<char>>)
    ensures
        views(r@) == words(s@),
{
    let mut r: Vec<Vec<char>> = Vec::new();
    let mut i: usize = 0;
    assert(s@.skip(0) =~= s@);
    while i < s.len()
        invariant
            i <= s.len(),
            views(r@) + words(s@.skip(i as int)) == words(s@),
        decreases s.len() - i,
    {
        let ghost t = s@.skip(i as int);
        if is_whitespace(s[i]) {
            assert(t.drop_first() =~= s@.skip(i + 1));
            i += 1;
        } else {
            let mut e = i;
            while e < s.len() && !is_whitespace(s[e])
                invariant
                    i <= e <= s.len(),
                    forall|j: int| i <= j < e ==> !is_ws(s@[j]),
                decreases s.len() - e,
            {
                e += 1;
            }
            let w = slice_of(s, i, e);
            proof {
                assert forall|j: int| 0 <= j < e - i implies !is_ws(t[j]) by {
                    assert(t[j] == s@[i + j]);
                }
                if e < s.len() {
                    assert(t[e - i] == s@[e as int]);
                }
                lemma_ws_index_unique(t, e - i);
                assert(t.take(e - i) =~= w@);
                assert(t.skip(e - i) =~= s@.skip(e as int));
                lemma_views_push(r@, w);
                assert(views(r@.push(w)) + words(s@.skip(e as int)) =~= views(r@) + words(t));
            }
            r.push(w);
            i = e;
        }
    }
    proof {
        assert(s@.skip(i as int) =~= Seq::<char>::empty());
        assert(views(r@) + words(s@.skip(i as int)) =~= views(r@));
    }
    r
}

/// `[..].join(sep)`.
pub open spec fn join(parts: Seq<Seq<char>>, sep: Seq<char>) -> Seq<char>
    decreases parts.len(),
{
    if parts.len() == 0 {
        seq![]
    } else if parts.len() == 1 {
        parts[0]
    } else {
        join(parts.drop_last(), sep) + sep + parts.last()
    }
}

/// `[..].join(sep)` over character vectors.
pub fn join_chars(parts: &Vec<Vec<char>>, lo: usize, sep: &str) -> (r: Vec<char>)
    requires
        lo <= parts.len(),
    ensures
        r@ == join(views(parts@).skip(lo as int), sep@),
{
    let mut r: Vec<char> = Vec::new();
    let mut i = lo;
    let ghost ps = views(parts@).skip(lo as int);
    assert(ps.take(0) =~= Seq::<Seq<char>>::empty());
    while i < parts.len()
        invariant
            lo <= i <= parts.len(),
            ps == views(parts@).skip(lo as int),
            r@ == join(ps.take(i - lo), sep@),
        decreases parts.len() - i,
    {
        assert(ps.take(i - lo + 1).drop_last() =~= ps.take(i - lo));
        assert(ps[i - lo] == parts@[i as int]@);
        if i > lo {
            push_str(&mut r, sep);
        } else {
            assert(r@ =~= Seq::<char>::empty());
        }
        push_all(&mut r, &parts[i]);
        i += 1;
    }
    assert(ps.take(parts.len() - lo) =~= ps);
    r
}

/// `str::split` with a character pattern.
pub open spec fn split_char(s: Seq<char>, c: char) -> Seq<Seq<char>>
    decreases s.len(),
{
    let k = index_of(s, c);
    proof {
        lemma_index_of(s, c);
    }
    if k < s.len() {
        seq![s.take(k)] + split_char(s.skip(k + 1), c)
    } else {
        seq![s]
    }
}

/// `str::split` with a character pattern.
pub fn split_char_exec(s: &Vec<char>, c: char) -> (r: Vec<Vec<char>>)
    ensures
        views(r@) == split_char(s@, c),
{
    let mut r: Vec<Vec<char>> = Vec::new();
    let mut i: usize = 0;
    assert(s@.skip(0) =~= s@);
    loop
        invariant
            i <= s.len(),
            views(r@) + split_char(s@.skip(i as int), c) == split_char(s@, c),
        decreases s.len() - i,
    {
        let ghost t = s@.skip(i as int);
        let e = index_of_from(s, c, i);
        proof {
            lemma_index_of(t, c);
        }
        let piece = slice_of(s, i, e);
        proof {
            assert(t.take(e - i) =~= piece@);
            lemma_views_push(r@, piece);
        }
        if e < s.len() {
            proof {
                assert(t.skip(e - i + 1) =~= s@.skip(e + 1));
                assert(views(r@.push(piece)) + split_char(s@.skip(e + 1), c) =~= views(r@)
                    + split_char(t, c));
            }
            r.push(piece);
            i = e + 1;
        } else {
            proof {
                assert(t =~= piece@);
                assert(views(r@.push(piece)) =~= views(r@) + split_char(t, c));
            }
            r.push(piece);
            return r;
        }
    }
}

// ---------------------------------------------------------------------------
// Case
// ---------------------------------------------------------------------------

/// `char::to_ascii_lowercase`.
pub open spec fn lower_char(c: char) -> char {
    if 0x41 <= (c as int) <= 0x5a {
        ((c as int) + 32) as char
    } else {
        c
    }
}

/// `str::to_ascii_lowercase`.
pub open spec fn lower(s: Seq<char>) -> Seq<char> {
    s.map_values(|c: char| lower_char(c))
}

/// `str::to_ascii_lowercase`.
pub fn lower_exec(s: &Vec<char>) -> (r: Vec<char>)
    ensures
        r@ == lower(s@),
{
    let mut r: Vec<char> = Vec::new();
    let mut i: usize = 0;
    while i < s.len()
        invariant
            i <= s.len(),
            r@ == lower(s@.take(i as int)),
        decreases s.len() - i,
    {
        let c = s[i];
        let u = code_point(c);
        let l = if 0x41 <= u && u <= 0x5a {
            ((u as u8) + 32) as char
        } else {
            c
        };
        assert(l == lower_char(c));
        r.push(l);
        i += 1;
        assert(r@ =~= lower(s@.take(i as int)));
    }
    assert(s@.take(i as int) =~= s@);
    r
}

// ---------------------------------------------------------------------------
// Decimal numbers
// ---------------------------------------------------------------------------

pub open spec fn is_digit(c: char) -> bool {
    0x30 <= (c as int) <= 0x39
}

pub open spec fn digit_value(c: char) -> int {
    (c as int) - 0x30
}

pub open spec fn digit_char(d: int) -> char {
    (d + 0x30) as char
}

/// The decimal digits of `n`, without sign or leading zeros
/// (`ToString` on an unsigned integer).
pub open spec fn decimal(n: nat) -> Seq<char>
    decreases n,
{
    if n < 10 {
        seq![digit_char(n as int)]
    } else {
        decimal(n / 10).push(digit_char((n % 10) as int))
    }
}

/// `u32::to_string`, as characters.
pub fn decimal_of(n: u32) -> (r: Vec<char>)
    ensures
        r@ == decimal(n as nat),
    decreases n,
{
    let d = (n % 10) as u8;
    let c = (0x30u8 + d) as char;
    assert(c == digit_char((n % 10) as int));
    if n < 10 {
        let mut r: Vec<char> = Vec::new();
        r.push(c);
        assert(r@ =~= seq![c]);
        r
    } else {
        let mut r = decimal_of(n / 10);
        r.push(c);
        r
    }
}

/// The value of a sequence of decimal digits.
pub open spec fn digits_value(s: Seq<char>) -> int
    decreases s.len(),
{
    if s.len() == 0 {
        0
    } else {
        digits_value(s.drop_last()) * 10 + digit_value(s.last())
    }
}

pub open spec fn all_digits(s: Seq<char>) -> bool {
    forall|i: int| 0 <= i < s.len() ==> is_digit(#[trigger] s[i])
}

/// `str::parse` into an unsigned integer type whose largest value is `max`:
/// an optional `'+'`, then one or more decimal digits whose value is at most
/// `max`.
pub open spec fn parse_unsigned(s: Seq<char>, max: int) -> Option<int> {
    let d = if s.len() > 0 && s[0] == '+' {
        s.drop_first()
    } else {
        s
    };
    if d.len() > 0 && all_digits(d) && digits_value(d) <= max {
        Some(digits_value(d))
    } else {
        None
    }
}

pub proof fn lemma_digits_value_prefix(s: Seq<char>, j: int)
    requires
        all_digits(s),
        0 <= j <= s.len(),
    ensures
        0 <= digits_value(s.take(j)) <= digits_value(s),
    decreases s.len(),
{
    if j < s.len() {
        assert(s.drop_last().take(j) =~= s.take(j));
        assert(all_digits(s.drop_last())) by {
            assert forall|i: int| 0 <= i < s.drop_last().len() implies is_digit(
                #[trigger] s.drop_last()[i],
            ) by {
                assert(s.drop_last()[i] == s[i]);
            }
        }
        lemma_digits_value_prefix(s.drop_last(), j);
        assert(is_digit(s[s.len() - 1]));
        lemma_digits_value_prefix(s.drop_last(), s.len() - 1);
    } else {
        assert(s.take(j) =~= s);
        if s.len() > 0 {
            assert(all_digits(s.drop_last())) by {
                assert forall|i: int| 0 <= i < s.drop_last().len() implies is_digit(
                    #[trigger] s.drop_last()[i],
                ) by {
                    assert(s.drop_last()[i] == s[i]);
                }
            }
            assert(s.drop_last().take(s.len() - 1) =~= s.drop_last());
            lemma_digits_value_prefix(s.drop_last(), s.len() - 1);
            assert(is_digit(s[s.len() - 1]));
        }
    }
}

/// `str::parse::<u32>`, with `Err` as `None`.
pub fn parse_u32(s: &Vec<char>) -> (r: Option<u32>)
    ensures
        match r {
            Some(v) => parse_unsigned(s@, u32::MAX as int) == Some(v as int),
            None => parse_unsigned(s@, u32::MAX as int) is None,
        },
{
    let start: usize = if s.len() > 0 && s[0] == '+' {
        1
    } else {
        0
    };
    let ghost d = if s@.len() > 0 && s@[0] == '+' {
        s@.drop_first()
    } else {
        s@
    };
    assert(d =~= s@.skip(start as int));
    if start == s.len() {
        return None;
    }
    let mut acc: u64 = 0;
    let mut i = start;
    assert(d.take(0) =~= Seq::<char>::empty());
    while i < s.len()
        invariant
            start <= i <= s.len(),
            d == s@.skip(start as int),
            d == (if s@.len() > 0 && s@[0] == '+' {
                s@.drop_first()
            } else {
                s@
            }),
            acc == digits_value(d.take(i - start)),
            acc <= u32::MAX,
            all_digits(d.take(i - start)),
        decreases s.len() - i,
    {
        let c = s[i];
        assert(d[i - start] == c);
        let u = code_point(c);
        if !(0x30 <= u && u <= 0x39) {
            assert(!is_digit(d[i - start]));
            assert(!all_digits(d));
            return None;
        }
        let dv = (u - 0x30) as u64;
        let next = acc * 10 + dv;
        assert(d.take(i - start + 1).drop_last() =~= d.take(i - start));
        assert(all_digits(d.take(i - start + 1))) by {
            assert forall|k: int| 0 <= k < i - start + 1 implies is_digit(
                #[trigger] d.take(i - start + 1)[k],
            ) by {
                if k < i - start {
                    assert(d.take(i - start + 1)[k] == d.take(i - start)[k]);
                }
            }
        }
        if next > u32::MAX as u64 {
            proof {
                if all_digits(d) {
                    lemma_digits_value_prefix(d, i - start + 1);
                }
            }
            return None;
        }
        acc = next;
        i += 1;
    }
    assert(d.take(i - start) =~= d);
    Some(acc as u32)
}

/// `str::parse::<u16>`, with `Err` as `None`.
pub fn parse_u16(s: &Vec<char>) -> (r: Option<u16>)
    ensures
        match r {
            Some(v) => parse_unsigned(s@, u16::MAX as int) == Some(v as int),
            None => parse_unsigned(s@, u16::MAX as int) is None,
        },
{
    match parse_u32(s) {
        Some(v) => {
            if v <= 65535 {
                Some(v as u16)
            } else {
                None
            }
        },
        None => None,
    }
}

} // verus!
