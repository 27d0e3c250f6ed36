use vstd::prelude::*;

verus! {

pub const NEWLINE: u8 = 10;

pub const BACKSLASH: u8 = 92;

pub const BACKTICK: u8 = 96;

pub const HASH: u8 = 35;

/// `s` begins with `p`.
pub open spec fn starts_with(s: Seq<u8>, p: Seq<u8>) -> bool {
    p.len() <= s.len() && s.subrange(0, p.len() as int) == p
}

/// Index of the first newline in `s`, or its length when there is none.
pub open spec fn first_nl(s: Seq<u8>) -> int
    decreases s.len(),
{
    if s.len() == 0 {
        0
    } else if s[0] == NEWLINE {
        0
    } else {
        1 + first_nl(s.skip(1))
    }
}

pub proof fn lemma_first_nl(s: Seq<u8>)
    ensures
        0 <= first_nl(s) <= s.len(),
        forall|k: int| 0 <= k < first_nl(s) ==> s[k] != NEWLINE,
        first_nl(s) < s.len() ==> s[first_nl(s)] == NEWLINE,
    decreases s.len(),
{
    if s.len() > 0 && s[0] != NEWLINE {
        lemma_first_nl(s.skip(1));
        assert forall|k: int| 0 <= k < first_nl(s) implies s[k] != NEWLINE by {
            if k > 0 {
                assert(s[k] == s.skip(1)[k - 1]);
            }
        }
    }
}

/// `first_nl` is the one index with no newline before it and a newline (or the end) at it.
pub proof fn lemma_first_nl_unique(s: Seq<u8>, j: int)
    requires
        0 <= j <= s.len(),
        forall|k: int| 0 <= k < j ==> s[k] != NEWLINE,
        j < s.len() ==> s[j] == NEWLINE,
    ensures
        first_nl(s) == j,
{
    lemma_first_nl(s);
    if first_nl(s) < j {
        assert(s[first_nl(s)] == NEWLINE);
    } else if first_nl(s) > j {
        assert(s[j] != NEWLINE);
    }
}

/// Exec test of `starts_with` on the part `s[lo..hi]`.
pub fn starts_with_in(s: &[u8], lo: usize, hi: usize, p: &[u8]) -> (r: bool)
    requires
        lo <= hi <= s@.len(),
    ensures
        r == starts_with(s@.subrange(lo as int, hi as int), p@),
{
    if p.len() > hi - lo {
        return false;
    }
    let mut k: usize = 0;
    while k < p.len()
        invariant
            p@.len() <= hi - lo,
            lo <= hi <= s@.len(),
            k <= p@.len(),
            forall|m: int| 0 <= m < k ==> s@[lo + m] == p@[m],
        decreases p@.len() - k,
    {
        if s[lo + k] != p[k] {
            assert(s@.subrange(lo as int, hi as int).subrange(0, p@.len() as int)[k as int] != p@[k as int]);
            return false;
        }
        k = k + 1;
    }
    assert(s@.subrange(lo as int, hi as int).subrange(0, p@.len() as int) =~= p@);
    true
}

/// Position of the first newline at or after `from`, or the length.
pub fn find_nl(s: &[u8], from: usize) -> (r: usize)
    requires
        from <= s@.len(),
    ensures
        from <= r <= s@.len(),
        r - from == first_nl(s@.skip(from as int)),
{
    let mut j: usize = from;
    while j < s.len() && s[j] != NEWLINE
        invariant
            from <= j <= s@.len(),
            forall|k: int| from <= k < j ==> s@[k] != NEWLINE,
        decreases s@.len() - j,
    {
        j = j + 1;
    }
    proof {
        lemma_first_nl_unique(s@.skip(from as int), j - from);
    }
    j
}

/// Appends `src[lo..hi]` to `out`.
pub fn push_range(out: &mut Vec<u8>, src: &[u8], lo: usize, hi: usize)
    requires
        lo <= hi <= src@.len(),
    ensures
        final(out)@ == old(out)@ + src@.subrange(lo as int, hi as int),
{
    let ghost start = out@;
    let mut k: usize = lo;
    while k < hi
        invariant
            lo <= k <= hi <= src@.len(),
            out@ == start + src@.subrange(lo as int, k as int),
        decreases hi - k,
    {
        out.push(src[k]);
        assert(src@.subrange(lo as int, k + 1) =~= src@.subrange(lo as int, k as int).push(src@[k as int]));
        k = k + 1;
    }
}

} // verus!

verus! {

/// `s` holds `p` at some offset.
pub open spec fn contains(s: Seq<u8>, p: Seq<u8>) -> bool {
    exists|i: int| 0 <= i <= s.len() && #[trigger] starts_with(s.skip(i), p)
}

/// `s` ends with `p`.
pub open spec fn ends_with(s: Seq<u8>, p: Seq<u8>) -> bool {
    p.len() <= s.len() && s.skip(s.len() - p.len()) == p
}

/// Index of the last `b` in `s`, or -1.
pub open spec fn last_index(s: Seq<u8>, b: u8) -> int
    decreases s.len(),
{
    if s.len() == 0 {
        -1
    } else if s.last() == b {
        s.len() - 1
    } else {
        last_index(s.drop_last(), b)
    }
}

pub proof fn lemma_last_index(s: Seq<u8>, b: u8)
    ensures
        -1 <= last_index(s, b) < s.len(),
        last_index(s, b) >= 0 ==> s[last_index(s, b)] == b,
        forall|k: int| last_index(s, b) < k < s.len() ==> s[k] != b,
    decreases s.len(),
{
    if s.len() > 0 && s.last() != b {
        lemma_last_index(s.drop_last(), b);
        assert forall|k: int| last_index(s, b) < k < s.len() implies s[k] != b by {
            if k < s.len() - 1 {
                assert(s[k] == s.drop_last()[k]);
            }
        }
    }
}

pub fn eq_bytes(a: &[u8], b: &[u8]) -> (r: bool)
    ensures
        r == (a@ == b@),
{
    if a.len() != b.len() {
        return false;
    }
    let mut i: usize = 0;
    while i < a.len()
        invariant
            a@.len() == b@.len(),
            i <= a@.len(),
            forall|k: int| 0 <= k < i ==> a@[k] == b@[k],
        decreases a@.len() - i,
    {
        if a[i] != b[i] {
            return false;
        }
        i = i + 1;
    }
    assert(a@ =~= b@);
    true
}

/// Exec form of `last_index` on `s[0..hi]`, with `None` for -1.
pub fn find_last(s: &[u8], hi: usize, b: u8) -> (r: Option<usize>)
    requires
        hi <= s@.len(),
    ensures
        match r {
            Some(k) => k == last_index(s@.take(hi as int), b),
            None => last_index(s@.take(hi as int), b) == -1,
        },
{
    let mut j: usize = hi;
    while j > 0
        invariant
            j <= hi <= s@.len(),
            last_index(s@.take(j as int), b) == last_index(s@.take(hi as int), b),
        decreases j,
    {
        assert(s@.take(j as int).drop_last() =~= s@.take(j - 1));
        if s[j - 1] == b {
            return Some(j - 1);
        }
        j = j - 1;
    }
    None
}

/// Exec test of `contains`.
pub fn contains_bytes(s: &[u8], p: &[u8]) -> (r: bool)
    ensures
        r == contains(s@, p@),
{
    let mut i: usize = 0;
    while i < s.len()
        invariant
            i <= s@.len(),
            forall|k: int| 0 <= k < i ==> !#[trigger] starts_with(s@.skip(k), p@),
        decreases s@.len() - i,
    {
        assert(s@.subrange(i as int, s@.len() as int) =~= s@.skip(i as int));
        if starts_with_in(s, i, s.len(), p) {
            return true;
        }
        i = i + 1;
    }
    assert(s@.subrange(i as int, s@.len() as int) =~= s@.skip(i as int));
    starts_with_in(s, i, s.len(), p)
}

/// Exec test of `ends_with`.
pub fn ends_with_bytes(s: &[u8], p: &[u8]) -> (r: bool)
    ensures
        r == ends_with(s@, p@),
{
    if p.len() > s.len() {
        return false;
    }
    let at = s.len() - p.len();
    let r = starts_with_in(s, at, s.len(), p);
    assert(s@.subrange(at as int, s@.len() as int) =~= s@.skip(at as int));
    assert(s@.skip(at as int).subrange(0, p@.len() as int) =~= s@.skip(at as int));
    r
}

/// Relies on std::str::from_utf8, which succeeds exactly on valid UTF-8.
#[verifier::external_body]
pub(crate) fn is_utf8(b: &[u8]) -> (r: bool)
    ensures
        r == vstd::utf8::valid_utf8(b@),
{
    std::str::from_utf8(b).is_ok()
}

} // verus!

verus! {

/// An ASCII White_Space byte: space, and tab through carriage return.
pub open spec fn ascii_ws(b: u8) -> bool {
    b == 32 || (9 <= b && b <= 13)
}

/// The UTF-8 form of U+0085 or U+00A0.
pub open spec fn ws2(a: u8, b: u8) -> bool {
    a == 0xC2 && (b == 0x85 || b == 0xA0)
}

/// The UTF-8 form of U+1680, U+2000 to U+200A, U+2028, U+2029, U+202F,
/// U+205F or U+3000.
pub open spec fn ws3(a: u8, b: u8, c: u8) -> bool {
    ||| (a == 0xE1 && b == 0x9A && c == 0x80)
    ||| (a == 0xE2 && b == 0x80 && ((0x80 <= c && c <= 0x8A) || c == 0xA8 || c == 0xA9 || c == 0xAF))
    ||| (a == 0xE2 && b == 0x81 && c == 0x9F)
    ||| (a == 0xE3 && b == 0x80 && c == 0x80)
}

/// Length of the white-space character that `s` begins with, 0 if none.
/// With `newline_only` only the newline counts; otherwise every character
/// with the Unicode White_Space property (what `char::is_whitespace` and
/// `str::trim` take), in its UTF-8 form.
pub open spec fn front_ws(s: Seq<u8>, newline_only: bool) -> int {
    if newline_only {
        if s.len() >= 1 && s[0] == NEWLINE {
            1
        } else {
            0
        }
    } else if s.len() >= 1 && ascii_ws(s[0]) {
        1
    } else if s.len() >= 2 && ws2(s[0], s[1]) {
        2
    } else if s.len() >= 3 && ws3(s[0], s[1], s[2]) {
        3
    } else {
        0
    }
}

/// Length of the white-space character that `s` ends with, 0 if none.
pub open spec fn back_ws(s: Seq<u8>, newline_only: bool) -> int {
    let n = s.len() as int;
    if newline_only {
        if n >= 1 && s[n - 1] == NEWLINE {
            1
        } else {
            0
        }
    } else if n >= 1 && ascii_ws(s[n - 1]) {
        1
    } else if n >= 2 && ws2(s[n - 2], s[n - 1]) {
        2
    } else if n >= 3 && ws3(s[n - 3], s[n - 2], s[n - 1]) {
        3
    } else {
        0
    }
}

/// Number of leading bytes that trimming takes off.
pub open spec fn lead(s: Seq<u8>, newline_only: bool) -> nat
    decreases s.len(),
{
    let k = front_ws(s, newline_only);
    if 0 < k <= s.len() {
        (k + lead(s.skip(k), newline_only)) as nat
    } else {
        0
    }
}

/// Number of trailing bytes that trimming takes off.
pub open spec fn trail(s: Seq<u8>, newline_only: bool) -> nat
    decreases s.len(),
{
    let k = back_ws(s, newline_only);
    if 0 < k <= s.len() {
        (k + trail(s.take(s.len() - k), newline_only)) as nat
    } else {
        0
    }
}

/// `s` without its leading white space, and then without its trailing
/// white space. On UTF-8 text and with `newline_only` false this is
/// `str::trim`; with `newline_only` it is `trim_matches('\n')`.
pub open spec fn trim(s: Seq<u8>, newline_only: bool) -> Seq<u8> {
    let r = s.skip(lead(s, newline_only) as int);
    r.take(r.len() - trail(r, newline_only))
}

fn front_len(s: &[u8], lo: usize, hi: usize, newline_only: bool) -> (k: usize)
    requires
        lo <= hi <= s@.len(),
    ensures
        k == front_ws(s@.subrange(lo as int, hi as int), newline_only),
{
    let n = hi - lo;
    if newline_only {
        if n >= 1 && s[lo] == NEWLINE {
            1
        } else {
            0
        }
    } else if n >= 1 && (s[lo] == 32 || (9 <= s[lo] && s[lo] <= 13)) {
        1
    } else if n >= 2 && s[lo] == 0xC2 && (s[lo + 1] == 0x85 || s[lo + 1] == 0xA0) {
        2
    } else if n >= 3 && ws3_exec(s[lo], s[lo + 1], s[lo + 2]) {
        3
    } else {
        0
    }
}

fn back_len(s: &[u8], lo: usize, hi: usize, newline_only: bool) -> (k: usize)
    requires
        lo <= hi <= s@.len(),
    ensures
        k == back_ws(s@.subrange(lo as int, hi as int), newline_only),
{
    let n = hi - lo;
    if newline_only {
        if n >= 1 && s[hi - 1] == NEWLINE {
            1
        } else {
            0
        }
    } else if n >= 1 && (s[hi - 1] == 32 || (9 <= s[hi - 1] && s[hi - 1] <= 13)) {
        1
    } else if n >= 2 && s[hi - 2] == 0xC2 && (s[hi - 1] == 0x85 || s[hi - 1] == 0xA0) {
        2
    } else if n >= 3 && ws3_exec(s[hi - 3], s[hi - 2], s[hi - 1]) {
        3
    } else {
        0
    }
}

fn ws3_exec(a: u8, b: u8, c: u8) -> (r: bool)
    ensures
        r == ws3(a, b, c),
{
    (a == 0xE1 && b == 0x9A && c == 0x80) || (a == 0xE2 && b == 0x80 && ((0x80 <= c && c <= 0x8A)
        || c == 0xA8 || c == 0xA9 || c == 0xAF)) || (a == 0xE2 && b == 0x81 && c == 0x9F) || (a
        == 0xE3 && b == 0x80 && c == 0x80)
}

/// Exec form of `trim`.
pub fn trim_bytes(s: &[u8], newline_only: bool) -> (r: Vec<u8>)
    ensures
        r@ == trim(s@, newline_only),
{
    let n = s.len();
    let mut i: usize = 0;
    let mut done = false;
    assert(s@.skip(0) =~= s@);
    while !done
        invariant
            i <= n == s@.len(),
            lead(s@, newline_only) == i + lead(s@.skip(i as int), newline_only),
            done ==> lead(s@.skip(i as int), newline_only) == 0,
        decreases n - i + (if done { 0int } else { 1int }),
    {
        assert(s@.subrange(i as int, n as int) =~= s@.skip(i as int));
        let k = front_len(s, i, n, newline_only);
        if k == 0 {
            done = true;
        } else {
            assert(s@.skip(i as int).skip(k as int) =~= s@.skip(i + k));
            i = i + k;
        }
    }
    let ghost r = s@.skip(i as int);
    let mut j: usize = n;
    done = false;
    assert(s@.subrange(i as int, n as int) =~= r);
    while !done
        invariant
            i <= j <= n == s@.len(),
            r == s@.skip(i as int),
            trail(r, newline_only) == (n - j) + trail(s@.subrange(i as int, j as int), newline_only),
            done ==> trail(s@.subrange(i as int, j as int), newline_only) == 0,
        decreases j + (if done { 0int } else { 1int }),
    {
        let k = back_len(s, i, j, newline_only);
        if k == 0 {
            done = true;
        } else {
            assert(s@.subrange(i as int, j as int).take(j - i - k) =~= s@.subrange(
                i as int,
                j - k,
            ));
            j = j - k;
        }
    }
    assert(r.take(r.len() - trail(r, newline_only)) =~= s@.subrange(i as int, j as int));
    let mut out: Vec<u8> = Vec::new();
    push_range(&mut out, s, i, j);
    out
}

} // verus!
