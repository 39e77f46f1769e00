//! Character-level helpers shared by the parsers and renderers.

use vstd::prelude::*;

verus! {

broadcast use vstd::string::group_string_axioms;

/// Copies the characters of `s` into a vector.
pub fn to_chars(s: &str) -> (v: Vec<char>)
    ensures
        v@ == s@,
{
    let mut v: Vec<char> = Vec::new();
    for c in it: s.chars()
        invariant
            it.seq() == s@,
            v@ == it.seq().take(it.index() as int),
    {
        v.push(c);
    }
    v
}

/// Whether two strings hold the same characters.
pub fn str_eq(a: &str, b: &str) -> (r: bool)
    ensures
        r == (a@ == b@),
{
    let x = to_chars(a);
    let y = to_chars(b);
    if x.len() != y.len() {
        return false;
    }
    let mut i: usize = 0;
    while i < x.len()
        invariant
            x@ == a@,
            y@ == b@,
            x.len() == y.len(),
            i <= x.len(),
            forall|j: int| 0 <= j < i ==> x@[j] == y@[j],
        decreases x.len() - i,
    {
        if x[i] != y[i] {
            return false;
        }
        i = i + 1;
    }
    assert(x@ =~= y@);
    true
}

} // verus!

verus! {

/// `char::is_whitespace`: the Unicode `White_Space` property.
pub open spec fn is_whitespace(c: char) -> bool {
    let u = c as u32;
    (9 <= u <= 13) || u == 32 || u == 0x85 || u == 0xA0 || u == 0x1680 || (0x2000 <= u <= 0x200A)
        || u == 0x2028 || u == 0x2029 || u == 0x202F || u == 0x205F || u == 0x3000
}

/// `s` without its leading whitespace.
pub open spec fn trim_start(s: Seq<char>) -> Seq<char>
    decreases s.len(),
{
    if s.len() > 0 && is_whitespace(s[0]) {
        trim_start(s.drop_first())
    } else {
        s
    }
}

/// `s` without its trailing whitespace.
pub open spec fn trim_end(s: Seq<char>) -> Seq<char>
    decreases s.len(),
{
    if s.len() > 0 && is_whitespace(s.last()) {
        trim_end(s.drop_last())
    } else {
        s
    }
}

/// `str::trim`: `s` without leading and trailing whitespace.
pub open spec fn trim(s: Seq<char>) -> Seq<char> {
    trim_end(trim_start(s))
}

/// Whether `s` starts with `p`.
pub open spec fn has_prefix(s: Seq<char>, p: Seq<char>) -> bool {
    p.len() <= s.len() && s.take(p.len() as int) == p
}

/// Whether `s` ends with `p`.
pub open spec fn has_suffix(s: Seq<char>, p: Seq<char>) -> bool {
    p.len() <= s.len() && s.skip(s.len() - p.len()) == p
}

/// Position of the first `c` in `s`, or the length of `s` when absent.
pub open spec fn char_pos(s: Seq<char>, c: char) -> int
    decreases s.len(),
{
    if s.len() == 0 {
        0
    } else if s[0] == c {
        0
    } else {
        1 + char_pos(s.drop_first(), c)
    }
}

/// `str::find`: the first position at which `p` occurs in `s`.
pub open spec fn find(s: Seq<char>, p: Seq<char>) -> Option<int>
    decreases s.len(),
{
    if s.len() < p.len() {
        None
    } else if s.take(p.len() as int) == p {
        Some(0)
    } else if s.len() == 0 {
        None
    } else {
        match find(s.drop_first(), p) {
            Some(i) => Some(i + 1),
            None => None,
        }
    }
}

/// A line as `str::lines` yields it: a `\r` before the `\n` is dropped.
pub open spec fn strip_cr(line: Seq<char>) -> Seq<char> {
    if line.len() > 0 && line.last() == '\r' {
        line.drop_last()
    } else {
        line
    }
}

pub proof fn lemma_char_pos_bound(s: Seq<char>, c: char)
    ensures
        0 <= char_pos(s, c) <= s.len(),
        char_pos(s, c) < s.len() ==> s[char_pos(s, c)] == c,
        forall|j: int| 0 <= j < char_pos(s, c) ==> s[j] != c,
    decreases s.len(),
{
    if s.len() > 0 && s[0] != c {
        lemma_char_pos_bound(s.drop_first(), c);
        assert forall|j: int| 0 <= j < char_pos(s, c) implies s[j] != c by {
            if j > 0 {
                assert(s[j] == s.drop_first()[j - 1]);
            }
        }
    }
}

/// `str::lines`: the lines of `s`, split at `\n`; a final line ending is
/// optional.
pub open spec fn lines(s: Seq<char>) -> Seq<Seq<char>>
    decreases s.len(),
{
    if s.len() == 0 {
        Seq::empty()
    } else {
        let k = char_pos(s, '\n');
        if k >= s.len() {
            seq![s]
        } else {
            proof {
                lemma_char_pos_bound(s, '\n');
            }
            seq![strip_cr(s.take(k))] + lines(s.skip(k + 1))
        }
    }
}

/// Characterises `char_pos` by the position that a scan finds.
pub proof fn lemma_char_pos_is(s: Seq<char>, c: char, k: int)
    requires
        0 <= k <= s.len(),
        k < s.len() ==> s[k] == c,
        forall|j: int| 0 <= j < k ==> s[j] != c,
    ensures
        char_pos(s, c) == k,
    decreases k,
{
    if k > 0 {
        assert(s[0] != c);
        assert forall|j: int| 0 <= j < k - 1 implies s.drop_first()[j] != c by {
            assert(s.drop_first()[j] == s[j + 1]);
        }
        if k - 1 < s.drop_first().len() {
            assert(s.drop_first()[k - 1] == s[k]);
        }
        lemma_char_pos_is(s.drop_first(), c, k - 1);
    }
}

/// Whether `p` occurs in `s` at position `j`.
pub open spec fn occurs_at(s: Seq<char>, p: Seq<char>, j: int) -> bool {
    0 <= j && j + p.len() <= s.len() && s.subrange(j, j + p.len()) == p
}

/// A position that `find` reports is an occurrence.
pub proof fn lemma_find_bounds(s: Seq<char>, p: Seq<char>)
    ensures
        find(s, p) matches Some(i) ==> occurs_at(s, p, i),
    decreases s.len(),
{
    if s.len() >= p.len() && s.take(p.len() as int) != p && s.len() > 0 {
        lemma_find_bounds(s.drop_first(), p);
        if let Some(i) = find(s.drop_first(), p) {
            assert(s.drop_first().subrange(i, i + p.len()) =~= s.subrange(i + 1, i + 1 + p.len()));
        }
    } else if s.len() >= p.len() && s.take(p.len() as int) == p {
        assert(s.subrange(0, p.len() as int) == s.take(p.len() as int));
    }
}

/// `find` reports the first occurrence: no occurrence comes before the
/// position it reports, and there is none at all when it reports nothing.
pub proof fn lemma_find_first(s: Seq<char>, p: Seq<char>)
    ensures
        match find(s, p) {
            Some(k) => forall|j: int| 0 <= j < k ==> !#[trigger] occurs_at(s, p, j),
            None => forall|j: int| !#[trigger] occurs_at(s, p, j),
        },
    decreases s.len(),
{
    if s.len() < p.len() {
    } else if s.take(p.len() as int) == p {
    } else if s.len() == 0 {
        assert(s.take(p.len() as int) =~= p);
    } else {
        assert(s.subrange(0, p.len() as int) == s.take(p.len() as int));
        assert(!occurs_at(s, p, 0));
        let t = s.drop_first();
        lemma_find_first(t, p);
        assert forall|j: int| 0 <= j implies #[trigger] occurs_at(t, p, j) == occurs_at(s, p, j + 1) by {
            if j + p.len() <= t.len() {
                assert(t.subrange(j, j + p.len()) =~= s.subrange(j + 1, j + 1 + p.len()));
            }
        }
        match find(t, p) {
            Some(i) => {
                assert forall|j: int| 0 <= j < i + 1 implies !#[trigger] occurs_at(s, p, j) by {
                    if j > 0 {
                        assert(!occurs_at(t, p, j - 1));
                    }
                }
            },
            None => {
                assert forall|j: int| !#[trigger] occurs_at(s, p, j) by {
                    if j > 0 {
                        assert(!occurs_at(t, p, j - 1));
                    }
                }
            },
        }
    }
}

/// Characterises `find` by the first position at which a scan matches.
pub proof fn lemma_find_is(s: Seq<char>, p: Seq<char>, k: Option<int>)
    requires
        match k {
            Some(i) => occurs_at(s, p, i) && forall|j: int| 0 <= j < i ==> !#[trigger] occurs_at(s, p, j),
            None => forall|j: int| !#[trigger] occurs_at(s, p, j),
        },
    ensures
        find(s, p) == k,
    decreases s.len(),
{
    if s.len() < p.len() {
        if let Some(i) = k {
            assert(false);
        }
    } else if s.take(p.len() as int) == p {
        assert(s.subrange(0, p.len() as int) == s.take(p.len() as int));
        assert(occurs_at(s, p, 0));
        if let Some(i) = k {
            if i > 0 {
                assert(!occurs_at(s, p, 0));
            }
        }
    } else {
        assert(s.subrange(0, p.len() as int) == s.take(p.len() as int));
        assert(!occurs_at(s, p, 0));
        let t = s.drop_first();
        if s.len() == 0 {
            assert(p.len() == 0);
            assert(s.take(0) =~= p);
        } else {
            assert forall|j: int| #[trigger] occurs_at(t, p, j) == occurs_at(s, p, j + 1) by {
                if 0 <= j && j + p.len() <= t.len() {
                    assert(t.subrange(j, j + p.len()) =~= s.subrange(j + 1, j + 1 + p.len()));
                }
            }
            match k {
                Some(i) => {
                    assert(i > 0);
                    assert forall|j: int| 0 <= j < i - 1 implies !#[trigger] occurs_at(t, p, j) by {
                        assert(!occurs_at(s, p, j + 1));
                    }
                    assert(occurs_at(t, p, i - 1));
                    lemma_find_is(t, p, Some(i - 1));
                },
                None => {
                    assert forall|j: int| !#[trigger] occurs_at(t, p, j) by {
                        assert(!occurs_at(s, p, j + 1));
                    }
                    lemma_find_is(t, p, None);
                },
            }
        }
    }
}

/// Exec `char::is_whitespace`.
pub fn is_ws(c: char) -> (r: bool)
    ensures
        r == is_whitespace(c),
{
    let u = c as u32;
    (9 <= u && u <= 13) || u == 32 || u == 0x85 || u == 0xA0 || u == 0x1680 || (0x2000 <= u && u
        <= 0x200A) || u == 0x2028 || u == 0x2029 || u == 0x202F || u == 0x205F || u == 0x3000
}

/// Bounds of the trimmed part of `cs[lo..hi]`.
pub fn trim_bounds(cs: &Vec<char>, lo: usize, hi: usize) -> (r: (usize, usize))
    requires
        lo <= hi <= cs@.len(),
    ensures
        lo <= r.0 <= r.1 <= hi,
        cs@.subrange(r.0 as int, r.1 as int) == trim(cs@.subrange(lo as int, hi as int)),
{
    let mut a = lo;
    while a < hi && is_ws(cs[a])
        invariant
            lo <= a <= hi <= cs@.len(),
            trim_start(cs@.subrange(lo as int, hi as int)) == trim_start(
                cs@.subrange(a as int, hi as int),
            ),
        decreases hi - a,
    {
        assert(cs@.subrange(a as int, hi as int).drop_first() =~= cs@.subrange(a + 1, hi as int));
        a = a + 1;
    }
    let mut b = hi;
    while b > a && is_ws(cs[b - 1])
        invariant
            lo <= a <= b <= hi <= cs@.len(),
            trim_start(cs@.subrange(lo as int, hi as int)) == cs@.subrange(a as int, hi as int),
            trim_end(cs@.subrange(a as int, hi as int)) == trim_end(
                cs@.subrange(a as int, b as int),
            ),
        decreases b - a,
    {
        assert(cs@.subrange(a as int, b as int).drop_last() =~= cs@.subrange(a as int, b - 1));
        b = b - 1;
    }
    (a, b)
}

/// Whether `pat` occurs in `cs` at `pos`, ending no later than `hi`.
pub fn matches_at(cs: &Vec<char>, pos: usize, hi: usize, pat: &Vec<char>) -> (r: bool)
    requires
        hi <= cs@.len(),
    ensures
        r == (pos + pat@.len() <= hi && cs@.subrange(pos as int, pos + pat@.len()) == pat@),
{
    if pos > hi || hi - pos < pat.len() {
        return false;
    }
    let mut i: usize = 0;
    while i < pat.len()
        invariant
            pos + pat@.len() <= hi <= cs@.len(),
            i <= pat@.len(),
            forall|j: int| 0 <= j < i ==> cs@[pos + j] == pat@[j],
        decreases pat@.len() - i,
    {
        if cs[pos + i] != pat[i] {
            assert(cs@.subrange(pos as int, pos + pat@.len())[i as int] != pat@[i as int]);
            return false;
        }
        i = i + 1;
    }
    assert(cs@.subrange(pos as int, pos + pat@.len()) =~= pat@);
    true
}

/// The first position in `[lo, hi)` at which `pat` occurs within `cs[lo..hi]`.
pub fn find_in(cs: &Vec<char>, lo: usize, hi: usize, pat: &Vec<char>) -> (r: Option<usize>)
    requires
        lo <= hi <= cs@.len(),
    ensures
        match find(cs@.subrange(lo as int, hi as int), pat@) {
            Some(i) => r matches Some(p) && p == lo + i,
            None => r is None,
        },
        r matches Some(p) ==> lo <= p && p + pat@.len() <= hi,
{
    proof {
        lemma_find_bounds(cs@.subrange(lo as int, hi as int), pat@);
    }
    let ghost s = cs@.subrange(lo as int, hi as int);
    let mut p = lo;
    while p <= hi
        invariant
            lo <= p <= hi + 1,
            hi <= cs@.len(),
            s == cs@.subrange(lo as int, hi as int),
            forall|j: int| 0 <= j < p - lo ==> !#[trigger] occurs_at(s, pat@, j),
        decreases hi + 1 - p,
    {
        let m = matches_at(cs, p, hi, pat);
        proof {
            if p + pat@.len() <= hi {
                assert(s.subrange(p - lo, p - lo + pat@.len()) =~= cs@.subrange(
                    p as int,
                    p + pat@.len(),
                ));
            }
        }
        if m {
            proof {
                lemma_find_is(s, pat@, Some(p - lo));
            }
            return Some(p);
        }
        if p == hi {
            proof {
                assert forall|j: int| !#[trigger] occurs_at(s, pat@, j) by {
                    if 0 <= j && j < p - lo {
                    }
                }
                lemma_find_is(s, pat@, None);
            }
            return None;
        }
        p = p + 1;
    }
    proof {
        lemma_find_is(s, pat@, None);
    }
    None
}

} // verus!

verus! {

/// Decimal digit `d` (`0 <= d < 10`).
pub open spec fn digit(d: int) -> char {
    "0123456789"@[d]
}

/// The decimal digits of `n`, without leading zeros.
pub open spec fn digits(n: nat) -> Seq<char>
    decreases n,
{
    if n < 10 {
        seq![digit(n as int)]
    } else {
        digits(n / 10).push(digit((n % 10) as int))
    }
}

/// `n` written in decimal, with a leading `-` when it is negative.
pub open spec fn decimal(n: int) -> Seq<char> {
    if n < 0 {
        seq!['-'] + digits((-n) as nat)
    } else {
        digits(n as nat)
    }
}

/// Appends the decimal digits of `n` to `out`.
fn push_digits(out: &mut String, n: u64)
    ensures
        final(out)@ == old(out)@ + digits(n as nat),
    decreases n,
{
    let ds = "0123456789";
    proof {
        reveal_strlit("0123456789");
    }
    if n >= 10 {
        push_digits(out, n / 10);
    }
    let ghost before = out@;
    let d = (n % 10) as usize;
    out.append(ds.substring_char(d, d + 1));
    proof {
        assert(ds@.subrange(d as int, d + 1) =~= seq![digit(d as int)]);
        if n >= 10 {
            assert(out@ =~= old(out)@ + digits(n as nat));
        } else {
            assert(out@ =~= old(out)@ + digits(n as nat));
        }
    }
}

/// `n` written in decimal.
pub fn i64_text(n: i64) -> (r: String)
    ensures
        r@ == decimal(n as int),
{
    let mut r = String::new();
    if n < 0 {
        r.append("-");
        let m: u64 = (-(n as i128)) as u64;
        push_digits(&mut r, m);
        proof {
            reveal_strlit("-");
            assert(r@ =~= decimal(n as int));
        }
    } else {
        push_digits(&mut r, n as u64);
        proof {
            assert(r@ =~= decimal(n as int));
        }
    }
    r
}

/// `n` written in decimal.
pub fn usize_text(n: usize) -> (r: String)
    ensures
        r@ == decimal(n as int),
{
    let mut r = String::new();
    push_digits(&mut r, n as u64);
    proof {
        assert(r@ =~= decimal(n as int));
    }
    r
}

/// `a` comes strictly before `b` in the lexicographic order of their
/// characters (the order of `str`, whose UTF-8 bytes compare as their
/// characters do).
pub open spec fn text_lt(a: Seq<char>, b: Seq<char>) -> bool
    decreases a.len(),
{
    if b.len() == 0 {
        false
    } else if a.len() == 0 {
        true
    } else if a[0] != b[0] {
        (a[0] as int) < (b[0] as int)
    } else {
        text_lt(a.drop_first(), b.drop_first())
    }
}

/// No text comes before itself.
pub proof fn lemma_text_lt_irreflexive(a: Seq<char>)
    ensures
        !text_lt(a, a),
    decreases a.len(),
{
    if a.len() > 0 {
        lemma_text_lt_irreflexive(a.drop_first());
    }
}

/// Of two different texts, one comes before the other, and never both.
pub proof fn lemma_text_lt_total(a: Seq<char>, b: Seq<char>)
    ensures
        a != b ==> text_lt(a, b) || text_lt(b, a),
        !(text_lt(a, b) && text_lt(b, a)),
    decreases a.len(),
{
    if a.len() > 0 && b.len() > 0 {
        lemma_text_lt_total(a.drop_first(), b.drop_first());
        if a[0] != b[0] {
            assert((a[0] as int) != (b[0] as int));
        }
        if a[0] == b[0] && a != b {
            assert(a.drop_first() != b.drop_first()) by {
                if a.drop_first() == b.drop_first() {
                    assert(a =~= seq![a[0]] + a.drop_first());
                    assert(b =~= seq![b[0]] + b.drop_first());
                }
            }
        }
    } else if a.len() == 0 && b.len() == 0 {
        assert(a =~= b);
    }
}

/// The order of texts is transitive.
pub proof fn lemma_text_lt_transitive(a: Seq<char>, b: Seq<char>, c: Seq<char>)
    requires
        text_lt(a, b),
        text_lt(b, c),
    ensures
        text_lt(a, c),
    decreases a.len(),
{
    if a.len() > 0 && a[0] == b[0] && b[0] == c[0] {
        lemma_text_lt_transitive(a.drop_first(), b.drop_first(), c.drop_first());
    }
}

proof fn lemma_text_lt_skip(a: Seq<char>, b: Seq<char>, i: int)
    requires
        0 <= i <= a.len(),
        i <= b.len(),
        a.take(i) == b.take(i),
    ensures
        text_lt(a, b) == text_lt(a.skip(i), b.skip(i)),
    decreases i,
{
    if i > 0 {
        assert(a.take(i - 1) =~= a.take(i).take(i - 1));
        assert(b.take(i - 1) =~= b.take(i).take(i - 1));
        lemma_text_lt_skip(a, b, i - 1);
        assert(a[i - 1] == a.take(i)[i - 1]);
        assert(b[i - 1] == b.take(i)[i - 1]);
        assert(a.skip(i - 1).drop_first() =~= a.skip(i));
        assert(b.skip(i - 1).drop_first() =~= b.skip(i));
        assert(a.skip(i - 1).len() > 0 && b.skip(i - 1).len() > 0);
        assert(a.skip(i - 1)[0] == b.skip(i - 1)[0]);
        let x = a.skip(i - 1);
        let y = b.skip(i - 1);
        assert(text_lt(x, y) == text_lt(x.drop_first(), y.drop_first()));
    } else {
        assert(a.skip(0) =~= a);
        assert(b.skip(0) =~= b);
    }
}

/// Whether `a` comes strictly before `b` (`a < b` on `str`).
pub fn str_lt(a: &str, b: &str) -> (r: bool)
    ensures
        r == text_lt(a@, b@),
{
    let x = to_chars(a);
    let y = to_chars(b);
    let mut i: usize = 0;
    while i < x.len() && i < y.len()
        invariant
            x@ == a@,
            y@ == b@,
            i <= x@.len(),
            i <= y@.len(),
            a@.take(i as int) == b@.take(i as int),
        decreases x@.len() - i,
    {
        if x[i] != y[i] {
            proof {
                lemma_text_lt_skip(a@, b@, i as int);
            }
            return x[i] < y[i];
        }
        proof {
            assert(a@.take(i + 1) =~= a@.take(i as int).push(x@[i as int]));
            assert(b@.take(i + 1) =~= b@.take(i as int).push(y@[i as int]));
        }
        i = i + 1;
    }
    proof {
        lemma_text_lt_skip(a@, b@, i as int);
    }
    i < y.len()
}

} // verus!
