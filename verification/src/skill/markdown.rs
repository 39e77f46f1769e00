//! Markdown parsing for domain skills.
//!
//! A markdown skill starts with YAML frontmatter between `---` lines that
//! provides `id`, `title`, `description` and `version`; the body after the
//! frontmatter holds the instructions. Fields are read line by line: the
//! first line whose trimmed text starts with `<field>:` decides the field.

use vstd::prelude::*;

use crate::skill::error::{MarkdownFailure, MarkdownSkillError};
use crate::skill::types::DomainSkill;
use crate::text::{
    lemma_find_bounds, lemma_find_first, occurs_at,
    char_pos, has_prefix, has_suffix, find, find_in, lemma_char_pos_bound, lemma_char_pos_is, lines, matches_at,
    strip_cr, to_chars, trim, trim_bounds,
};

verus! {

broadcast use vstd::string::group_string_axioms;

// ---------------------------------------------------------------------------
// Specification

/// The part after `key` of the first line whose trimmed text starts with
/// `key`, if any line does.
pub open spec fn field_rest(ls: Seq<Seq<char>>, key: Seq<char>) -> Option<Seq<char>>
    decreases ls.len(),
{
    if ls.len() == 0 {
        None
    } else {
        let t = trim(ls[0]);
        if has_prefix(t, key) {
            Some(t.skip(key.len() as int))
        } else {
            field_rest(ls.drop_first(), key)
        }
    }
}

/// Whether `v` has at least two characters and starts and ends with `q`.
pub open spec fn is_quoted(v: Seq<char>, q: char) -> bool {
    v.len() >= 2 && v[0] == q && v.last() == q
}

/// `v` without an inline `#` comment, trimmed.
pub open spec fn uncomment(v: Seq<char>) -> Seq<char> {
    trim(v.take(char_pos(v, '#')))
}

/// The scalar that a trimmed value denotes when read for error context:
/// quotes are removed, an inline comment is dropped, and an empty result
/// means no value.
pub open spec fn quick_value(v: Seq<char>) -> Option<Seq<char>> {
    if v.len() == 0 {
        None
    } else if is_quoted(v, '"') || is_quoted(v, '\'') {
        Some(v.subrange(1, v.len() - 1))
    } else if uncomment(v).len() == 0 {
        None
    } else {
        Some(uncomment(v))
    }
}

/// Whether `c` equals the lowercase ASCII character `w` up to ASCII case.
pub open spec fn ascii_ci_char(c: char, w: char) -> bool {
    c == w || ('a' <= w <= 'z' && (c as u32) + 32 == (w as u32))
}

/// Whether `v` lowercases to the lowercase ASCII word `w`.
pub open spec fn ascii_ci_eq(v: Seq<char>, w: Seq<char>) -> bool {
    v.len() == w.len() && forall|i: int| 0 <= i < v.len() ==> ascii_ci_char(#[trigger] v[i], w[i])
}

/// Whether `v` is a YAML boolean or null word, in any case.
pub open spec fn yaml_keyword(v: Seq<char>) -> bool {
    ascii_ci_eq(v, "true"@) || ascii_ci_eq(v, "false"@) || ascii_ci_eq(v, "yes"@) || ascii_ci_eq(
        v,
        "no"@,
    ) || ascii_ci_eq(v, "on"@) || ascii_ci_eq(v, "off"@) || ascii_ci_eq(v, "~"@) || ascii_ci_eq(
        v,
        "null"@,
    )
}

/// Whether `c` is an ASCII decimal digit.
pub open spec fn is_digit(c: char) -> bool {
    '0' <= c <= '9'
}

/// Whether every character of `s` is a digit.
pub open spec fn all_digits(s: Seq<char>) -> bool {
    forall|i: int| 0 <= i < s.len() ==> is_digit(#[trigger] s[i])
}

/// `s` without one leading `+` or `-`.
pub open spec fn unsigned(s: Seq<char>) -> Seq<char> {
    if s.len() > 0 && (s[0] == '+' || s[0] == '-') {
        s.drop_first()
    } else {
        s
    }
}

/// `Digit+ | Digit+ '.' Digit* | Digit* '.' Digit+`.
pub open spec fn mantissa_ok(m: Seq<char>) -> bool {
    let d = char_pos(m, '.');
    if d < m.len() {
        all_digits(m.take(d)) && all_digits(m.skip(d + 1)) && m.len() >= 2
    } else {
        m.len() > 0 && all_digits(m)
    }
}

/// Position of the first `e` or `E`, or the length when absent.
pub open spec fn exp_pos(s: Seq<char>) -> int {
    let a = char_pos(s, 'e');
    let b = char_pos(s, 'E');
    if a <= b {
        a
    } else {
        b
    }
}

/// A decimal number with an optional exponent: `Mantissa ('e' Sign? Digit+)?`.
pub open spec fn number_ok(s: Seq<char>) -> bool {
    let e = exp_pos(s);
    mantissa_ok(s.take(e)) && (e >= s.len() || (unsigned(s.skip(e + 1)).len() > 0 && all_digits(
        unsigned(s.skip(e + 1)),
    )))
}

/// Whether `v` parses as `i64` or `f64` in Rust: an optional sign followed
/// by `inf`, `infinity`, `nan` (in any case) or a decimal number. Every text
/// that parses as `i64` also parses as `f64`.
pub open spec fn number_text(v: Seq<char>) -> bool {
    let t = unsigned(v);
    ascii_ci_eq(t, "inf"@) || ascii_ci_eq(t, "infinity"@) || ascii_ci_eq(t, "nan"@) || number_ok(t)
}

/// The string value that a trimmed value denotes: quotes are removed;
/// booleans, nulls and (except for `version`) numbers are not strings; an
/// inline comment is dropped; an empty result, quoted or not, means no
/// value.
pub open spec fn strict_value(v: Seq<char>, is_version: bool) -> Option<Seq<char>> {
    if v.len() == 0 {
        None
    } else if is_quoted(v, '"') || is_quoted(v, '\'') {
        if v.len() == 2 {
            None
        } else {
            Some(v.subrange(1, v.len() - 1))
        }
    } else if yaml_keyword(v) {
        None
    } else if !is_version && number_text(v) {
        None
    } else if uncomment(v).len() == 0 {
        None
    } else {
        Some(uncomment(v))
    }
}

/// The field `field` of `yaml` as read for error context.
pub open spec fn quick_field(yaml: Seq<char>, field: Seq<char>) -> Option<Seq<char>> {
    match field_rest(lines(yaml), field.push(':')) {
        Some(rest) => quick_value(trim(rest)),
        None => None,
    }
}

/// The string field `field` of `yaml`.
pub open spec fn strict_field(yaml: Seq<char>, field: Seq<char>, is_version: bool) -> Option<
    Seq<char>,
> {
    match field_rest(lines(yaml), field.push(':')) {
        Some(rest) => strict_value(trim(rest), is_version),
        None => None,
    }
}

/// Splits markdown into its frontmatter and body; `None` when the `---`
/// delimiters are missing or malformed.
pub open spec fn split_frontmatter(c: Seq<char>) -> Option<(Seq<char>, Seq<char>)> {
    let rest = if has_prefix(c, "---\n"@) {
        Some(c.skip("---\n"@.len() as int))
    } else if has_prefix(c, "---\r\n"@) {
        Some(c.skip("---\r\n"@.len() as int))
    } else {
        None
    };
    match rest {
        None => None,
        Some(rest) => split_after_opening(rest),
    }
}

/// Splits what follows the opening `---` line at the first closing `---`
/// line ended by `\n`, else at the first one ended by `\r\n`, else before a
/// final `---`; `None` when there is none.
pub open spec fn split_after_opening(rest: Seq<char>) -> Option<(Seq<char>, Seq<char>)> {
    match find(rest, "\n---\n"@) {
        Some(p) => Some((rest.take(p), rest.skip(p + "\n---\n"@.len()))),
        None => match find(rest, "\n---\r\n"@) {
            Some(p) => Some((rest.take(p), rest.skip(p + "\n---\r\n"@.len()))),
            None => if has_suffix(rest, "\n---"@) {
                Some((rest.take(rest.len() - "\n---"@.len()), Seq::empty()))
            } else {
                None
            },
        },
    }
}

/// Whether `c` is an opening `---` line `open`, then frontmatter `f`, then a
/// closing `---` line `close`, then body `b` (or `f` followed by a final
/// `---` with no line break and an empty body).
pub open spec fn frontmatter_shape(
    c: Seq<char>,
    open: Seq<char>,
    f: Seq<char>,
    close: Seq<char>,
    b: Seq<char>,
) -> bool {
    &&& open == "---\n"@ || open == "---\r\n"@
    &&& close == "\n---\n"@ || close == "\n---\r\n"@ || (close == "\n---"@ && b.len() == 0)
    &&& c == open + f + close + b
}

/// The preference between closing lines: a `---` line ended by `\n` comes
/// first, then one ended by `\r\n`, then a final `---`.
pub open spec fn closer_rank(close: Seq<char>) -> int {
    if close == "\n---\n"@ {
        0
    } else if close == "\n---\r\n"@ {
        1
    } else {
        2
    }
}

/// The shape of a split: when markdown splits into frontmatter `f` and
/// body `b`, it has that shape; so markdown without that shape is rejected.
pub proof fn lemma_split_shape(c: Seq<char>)
    ensures
        split_frontmatter(c) matches Some((f, b)) ==> exists|open: Seq<char>, close: Seq<char>|
            #[trigger] frontmatter_shape(c, open, f, close, b),
{
    reveal_strlit("---\n");
    reveal_strlit("---\r\n");
    reveal_strlit("\n---\n");
    reveal_strlit("\n---\r\n");
    reveal_strlit("\n---");
    if let Some((f, b)) = split_frontmatter(c) {
        let open = if has_prefix(c, "---\n"@) {
            "---\n"@
        } else {
            "---\r\n"@
        };
        let rest = c.skip(open.len() as int);
        assert(c =~= open + rest) by {
            assert(c.take(open.len() as int) == open);
        }
        lemma_find_bounds(rest, "\n---\n"@);
        lemma_find_bounds(rest, "\n---\r\n"@);
        match find(rest, "\n---\n"@) {
            Some(p) => {
                let close = "\n---\n"@;
                assert(rest.subrange(p, p + close.len()) == close);
                assert(rest =~= rest.take(p) + close + rest.skip(p + close.len()));
                assert(c =~= open + f + close + b);
                assert(frontmatter_shape(c, open, f, close, b));
            },
            None => match find(rest, "\n---\r\n"@) {
                Some(p) => {
                    let close = "\n---\r\n"@;
                    assert(rest.subrange(p, p + close.len()) == close);
                    assert(rest =~= rest.take(p) + close + rest.skip(p + close.len()));
                    assert(c =~= open + f + close + b);
                    assert(frontmatter_shape(c, open, f, close, b));
                },
                None => {
                    let close = "\n---"@;
                    assert(rest =~= rest.take(rest.len() - close.len()) + close);
                    assert(c =~= open + f + close + b);
                    assert(frontmatter_shape(c, open, f, close, b));
                },
            },
        }
    }
}

/// Whether `close` is a closing `---` line, or a final `---` before an
/// empty body `b`.
pub open spec fn is_closer(close: Seq<char>, b: Seq<char>) -> bool {
    close == "\n---\n"@ || close == "\n---\r\n"@ || (close == "\n---"@ && b.len() == 0)
}

proof fn lemma_rest_takes_first_closer(rest: Seq<char>, f2: Seq<char>, close2: Seq<char>, b2: Seq<char>) -> (close: Seq<char>)
    requires
        is_closer(close2, b2),
        rest == f2 + close2 + b2,
    ensures
        split_after_opening(rest) matches Some((f, b)) && is_closer(close, b) && f + close + b == rest && (
        closer_rank(close) < closer_rank(close2) || (closer_rank(close) == closer_rank(close2) && f.len()
            <= f2.len())),
{
    reveal_strlit("\n---\n");
    reveal_strlit("\n---\r\n");
    reveal_strlit("\n---");
    let lf = "\n---\n"@;
    let crlf = "\n---\r\n"@;
    let bare = "\n---"@;
    lemma_find_first(rest, lf);
    lemma_find_first(rest, crlf);
    lemma_find_bounds(rest, lf);
    lemma_find_bounds(rest, crlf);
    assert(lf.len() == 5 && crlf.len() == 6 && bare.len() == 4);
    assert(closer_rank(lf) == 0 && closer_rank(crlf) == 1 && closer_rank(bare) == 2);
    let k = f2.len() as int;
    if close2 == lf {
        assert(rest.subrange(k, k + 5) =~= lf);
        assert(occurs_at(rest, lf, k));
    } else if close2 == crlf {
        assert(rest.subrange(k, k + 6) =~= crlf);
        assert(occurs_at(rest, crlf, k));
    } else {
        assert(rest.skip(rest.len() - 4) =~= bare);
    }
    match find(rest, lf) {
        Some(p) => {
            let f = rest.take(p);
            let b = rest.skip(p + 5);
            assert(rest.subrange(p, p + 5) == lf);
            assert(f + lf + b =~= rest);
            assert(is_closer(lf, b));
            if close2 == lf {
                assert(p <= k);
            }
            lf
        },
        None => match find(rest, crlf) {
            Some(p) => {
                let f = rest.take(p);
                let b = rest.skip(p + 6);
                assert(rest.subrange(p, p + 6) == crlf);
                assert(f + crlf + b =~= rest);
                assert(is_closer(crlf, b));
                assert(close2 != lf);
                if close2 == crlf {
                    assert(p <= k);
                }
                crlf
            },
            None => {
                let f = rest.take(rest.len() - 4);
                let b = Seq::<char>::empty();
                assert(close2 != lf && close2 != crlf);
                assert(f + bare + b =~= rest);
                assert(is_closer(bare, b));
                bare
            },
        },
    }
}

/// Which split is taken: whenever markdown has the shape of a split at
/// all, it splits, and the split taken is the first by closing line: the
/// first `---` line ended by `\n`, else the first one ended by `\r\n`, else
/// a final `---`. No split of the same shape has a preferred closing line
/// or, with the same kind of closing line, shorter frontmatter; so the
/// frontmatter holds no earlier closing line of that kind.
pub proof fn lemma_split_takes_first_closer(
    c: Seq<char>,
    open2: Seq<char>,
    f2: Seq<char>,
    close2: Seq<char>,
    b2: Seq<char>,
)
    requires
        frontmatter_shape(c, open2, f2, close2, b2),
    ensures
        split_frontmatter(c) matches Some((f, b)) && exists|open: Seq<char>, close: Seq<char>|
            #[trigger] frontmatter_shape(c, open, f, close, b) && (closer_rank(close) < closer_rank(close2) || (
            closer_rank(close) == closer_rank(close2) && f.len() <= f2.len())),
{
    reveal_strlit("---\n");
    reveal_strlit("---\r\n");
    let rest = f2 + close2 + b2;
    let open = if open2 == "---\n"@ {
        assert(c.take(4) =~= "---\n"@);
        "---\n"@
    } else {
        assert(c[3] == '\r');
        assert(c.take(5) =~= "---\r\n"@);
        assert(!has_prefix(c, "---\n"@)) by {
            if has_prefix(c, "---\n"@) {
                assert(c.take(4)[3] == c[3]);
            }
        }
        "---\r\n"@
    };
    assert(c.skip(open.len() as int) =~= rest);
    assert(split_frontmatter(c) == split_after_opening(rest));
    let close = lemma_rest_takes_first_closer(rest, f2, close2, b2);
    if let Some((f, b)) = split_after_opening(rest) {
        assert(c =~= open + rest);
        assert(open + (f + close + b) =~= open + f + close + b);
        assert(frontmatter_shape(c, open, f, close, b));
    }
}

/// The fields of a parsed skill: id, title, description, instructions and
/// version.
pub struct SkillFields {
    pub id: Seq<char>,
    pub title: Seq<char>,
    pub description: Seq<char>,
    pub instructions: Seq<char>,
    pub version: Seq<char>,
}

/// The outcome of parsing a skill from its frontmatter and body, given what
/// the YAML check reported on the frontmatter (`Some(message)` on failure).
pub open spec fn parse_parts(
    front: Seq<char>,
    body: Seq<char>,
    yaml_error: Option<Seq<char>>,
) -> Result<SkillFields, MarkdownFailure> {
    let sid = quick_field(front, "id"@);
    let stitle = quick_field(front, "title"@);
    match yaml_error {
        Some(msg) => Err(MarkdownFailure::YamlParse { id: sid, title: stitle, msg }),
        None => match strict_field(front, "id"@, false) {
            None => Err(MarkdownFailure::MissingField { id: sid, title: stitle, field: "id"@ }),
            Some(id) => match strict_field(front, "title"@, false) {
                None => Err(
                    MarkdownFailure::MissingField { id: Some(id), title: None, field: "title"@ },
                ),
                Some(title) => match strict_field(front, "description"@, false) {
                    None => Err(
                        MarkdownFailure::MissingField {
                            id: Some(id),
                            title: Some(title),
                            field: "description"@,
                        },
                    ),
                    Some(description) => match strict_field(front, "version"@, true) {
                        None => Err(
                            MarkdownFailure::MissingField {
                                id: Some(id),
                                title: Some(title),
                                field: "version"@,
                            },
                        ),
                        Some(version) => if trim(body).len() == 0 {
                            Err(MarkdownFailure::EmptyBody { id: Some(id), title: Some(title) })
                        } else {
                            Ok(
                                SkillFields {
                                    id,
                                    title,
                                    description,
                                    instructions: trim(body),
                                    version,
                                },
                            )
                        },
                    },
                },
            },
        },
    }
}

/// A string value, when there is one, is never empty.
pub proof fn lemma_strict_value_non_empty(v: Seq<char>, is_version: bool)
    ensures
        strict_value(v, is_version) matches Some(x) ==> x.len() > 0,
{
}

/// A parsed skill has a non-empty id, title and description, and its
/// instructions are the trimmed body, which is not empty.
pub proof fn lemma_parsed_fields_non_empty(
    front: Seq<char>,
    body: Seq<char>,
    yaml_error: Option<Seq<char>>,
)
    ensures
        parse_parts(front, body, yaml_error) matches Ok(f) ==> {
            &&& f.id.len() > 0
            &&& f.title.len() > 0
            &&& f.description.len() > 0
            &&& f.instructions == trim(body)
            &&& f.instructions.len() > 0
        },
{
    if let Some(rest) = field_rest(lines(front), "id"@.push(':')) {
        lemma_strict_value_non_empty(trim(rest), false);
    }
    if let Some(rest) = field_rest(lines(front), "title"@.push(':')) {
        lemma_strict_value_non_empty(trim(rest), false);
    }
    if let Some(rest) = field_rest(lines(front), "description"@.push(':')) {
        lemma_strict_value_non_empty(trim(rest), false);
    }
}

/// The fields of a built skill.
pub open spec fn fields_of(s: DomainSkill) -> SkillFields {
    SkillFields {
        id: s.id@,
        title: s.title@,
        description: s.description@,
        instructions: s.instructions@,
        version: s.version@,
    }
}

/// The view of a parse result.
pub open spec fn outcome_view(r: Result<DomainSkill, MarkdownSkillError>) -> Result<
    SkillFields,
    MarkdownFailure,
> {
    match r {
        Ok(s) => Ok(fields_of(s)),
        Err(e) => Err(e@),
    }
}

// ---------------------------------------------------------------------------
// Scanning

/// Position of the first `c` in `cs[a..b]`, or `b` when absent.
fn pos_in(cs: &Vec<char>, a: usize, b: usize, c: char) -> (r: usize)
    requires
        a <= b <= cs@.len(),
    ensures
        a <= r <= b,
        r - a == char_pos(cs@.subrange(a as int, b as int), c),
{
    let mut i = a;
    while i < b && cs[i] != c
        invariant
            a <= i <= b <= cs@.len(),
            forall|j: int| a <= j < i ==> cs@[j] != c,
        decreases b - i,
    {
        i = i + 1;
    }
    proof {
        let t = cs@.subrange(a as int, b as int);
        assert forall|j: int| 0 <= j < i - a implies t[j] != c by {
            assert(t[j] == cs@[a + j]);
        }
        lemma_char_pos_is(t, c, i - a);
    }
    i
}

/// Whether `cs[a..b]` starts with `key`.
fn range_has_prefix(cs: &Vec<char>, a: usize, b: usize, key: &Vec<char>) -> (r: bool)
    requires
        a <= b <= cs@.len(),
    ensures
        r == has_prefix(cs@.subrange(a as int, b as int), key@),
        r ==> cs@.subrange(a as int, b as int).skip(key@.len() as int) == cs@.subrange(
            a + key@.len(),
            b as int,
        ),
{
    let r = matches_at(cs, a, b, key);
    proof {
        let t = cs@.subrange(a as int, b as int);
        if key@.len() <= t.len() {
            assert(t.take(key@.len() as int) =~= cs@.subrange(a as int, a + key@.len()));
            assert(t.skip(key@.len() as int) =~= cs@.subrange(a + key@.len(), b as int));
        }
    }
    r
}

/// The part after `key` of the first line of `cs[lo..hi]` whose trimmed
/// text starts with `key`.
fn field_rest_in(cs: &Vec<char>, lo: usize, hi: usize, key: &Vec<char>) -> (r: Option<
    (usize, usize),
>)
    requires
        lo <= hi <= cs@.len(),
    ensures
        match field_rest(lines(cs@.subrange(lo as int, hi as int)), key@) {
            Some(rest) => r matches Some((a, b)) && a <= b <= cs@.len() && cs@.subrange(
                a as int,
                b as int,
            ) == rest,
            None => r is None,
        },
{
    let mut p = lo;
    while p < hi
        invariant
            lo <= p <= hi <= cs@.len(),
            field_rest(lines(cs@.subrange(lo as int, hi as int)), key@) == field_rest(
                lines(cs@.subrange(p as int, hi as int)),
                key@,
            ),
        decreases hi - p,
    {
        let k = pos_in(cs, p, hi, '\n');
        let e = if k < hi && k > p && cs[k - 1] == '\r' {
            k - 1
        } else {
            k
        };
        let ghost t = cs@.subrange(p as int, hi as int);
        proof {
            lemma_char_pos_bound(t, '\n');
            if k < hi {
                assert(t.take(k - p) =~= cs@.subrange(p as int, k as int));
                assert(strip_cr(t.take(k - p)) =~= cs@.subrange(p as int, e as int));
                assert(t.skip(k - p + 1) =~= cs@.subrange(k + 1, hi as int));
                assert(lines(t) == seq![cs@.subrange(p as int, e as int)] + lines(
                    cs@.subrange(k + 1, hi as int),
                ));
                assert(lines(t).drop_first() =~= lines(cs@.subrange(k + 1, hi as int)));
            } else {
                assert(lines(t) == seq![t]);
                assert(t =~= cs@.subrange(p as int, e as int));
                assert(lines(t).drop_first() =~= Seq::<Seq<char>>::empty());
                assert(field_rest(Seq::<Seq<char>>::empty(), key@) is None);
            }
            assert(lines(t)[0] == cs@.subrange(p as int, e as int));
        }
        let (ta, tb) = trim_bounds(cs, p, e);
        if range_has_prefix(cs, ta, tb, key) {
            return Some((ta + key.len(), tb));
        }
        if k >= hi {
            return None;
        }
        p = k + 1;
    }
    proof {
        assert(cs@.subrange(p as int, hi as int).len() == 0);
    }
    None
}

/// Whether `cs[a..b]` equals the lowercase ASCII word `w` up to ASCII case.
fn ci_eq_in(cs: &Vec<char>, a: usize, b: usize, w: &str) -> (r: bool)
    requires
        a <= b <= cs@.len(),
    ensures
        r == ascii_ci_eq(cs@.subrange(a as int, b as int), w@),
{
    let wc = to_chars(w);
    if b - a != wc.len() {
        return false;
    }
    let mut i: usize = 0;
    while i < wc.len()
        invariant
            wc@ == w@,
            a <= b <= cs@.len(),
            b - a == wc@.len(),
            i <= wc@.len(),
            forall|j: int| 0 <= j < i ==> ascii_ci_char(cs@[a + j], wc@[j]),
        decreases wc@.len() - i,
    {
        let c = cs[a + i];
        let d = wc[i];
        if !(c == d || ('a' <= d && d <= 'z' && (c as u32) == (d as u32) - 32)) {
            assert(cs@.subrange(a as int, b as int)[i as int] == c);
            return false;
        }
        i = i + 1;
    }
    proof {
        let t = cs@.subrange(a as int, b as int);
        assert forall|j: int| 0 <= j < t.len() implies ascii_ci_char(#[trigger] t[j], w@[j]) by {
            assert(t[j] == cs@[a + j]);
        }
    }
    true
}

/// Whether `cs[a..b]` is all digits.
fn digits_in(cs: &Vec<char>, a: usize, b: usize) -> (r: bool)
    requires
        a <= b <= cs@.len(),
    ensures
        r == all_digits(cs@.subrange(a as int, b as int)),
{
    let mut i = a;
    while i < b
        invariant
            a <= i <= b <= cs@.len(),
            forall|j: int| a <= j < i ==> is_digit(cs@[j]),
        decreases b - i,
    {
        if !('0' <= cs[i] && cs[i] <= '9') {
            assert(cs@.subrange(a as int, b as int)[i - a] == cs@[i as int]);
            return false;
        }
        i = i + 1;
    }
    proof {
        let t = cs@.subrange(a as int, b as int);
        assert forall|j: int| 0 <= j < t.len() implies is_digit(#[trigger] t[j]) by {
            assert(t[j] == cs@[a + j]);
        }
    }
    true
}

/// Start of `cs[a..b]` once one leading sign is skipped.
fn skip_sign(cs: &Vec<char>, a: usize, b: usize) -> (r: usize)
    requires
        a <= b <= cs@.len(),
    ensures
        a <= r <= b,
        cs@.subrange(r as int, b as int) == unsigned(cs@.subrange(a as int, b as int)),
{
    if a < b && (cs[a] == '+' || cs[a] == '-') {
        assert(cs@.subrange(a as int, b as int).drop_first() =~= cs@.subrange(a + 1, b as int));
        a + 1
    } else {
        a
    }
}

/// Whether `cs[a..b]` is a decimal number with an optional exponent.
fn number_in(cs: &Vec<char>, a: usize, b: usize) -> (r: bool)
    requires
        a <= b <= cs@.len(),
    ensures
        r == number_ok(cs@.subrange(a as int, b as int)),
{
    let ghost t = cs@.subrange(a as int, b as int);
    let e1 = pos_in(cs, a, b, 'e');
    let e2 = pos_in(cs, a, b, 'E');
    let e = if e1 <= e2 {
        e1
    } else {
        e2
    };
    let d = pos_in(cs, a, e, '.');
    proof {
        assert(t.take(e - a) =~= cs@.subrange(a as int, e as int));
        let m = cs@.subrange(a as int, e as int);
        lemma_char_pos_bound(m, '.');
        if d < e {
            assert(m.take(d - a) =~= cs@.subrange(a as int, d as int));
            assert(m.skip(d - a + 1) =~= cs@.subrange(d + 1, e as int));
        }
        if e < b {
            assert(t.skip(e - a + 1) =~= cs@.subrange(e + 1, b as int));
        }
    }
    let mantissa = if d < e {
        digits_in(cs, a, d) && digits_in(cs, d + 1, e) && e - a >= 2
    } else {
        e > a && digits_in(cs, a, e)
    };
    if !mantissa {
        return false;
    }
    if e >= b {
        return true;
    }
    let x = skip_sign(cs, e + 1, b);
    x < b && digits_in(cs, x, b)
}

/// Whether `cs[a..b]` parses as a Rust `i64` or `f64`.
fn number_text_in(cs: &Vec<char>, a: usize, b: usize) -> (r: bool)
    requires
        a <= b <= cs@.len(),
    ensures
        r == number_text(cs@.subrange(a as int, b as int)),
{
    let s = skip_sign(cs, a, b);
    ci_eq_in(cs, s, b, "inf") || ci_eq_in(cs, s, b, "infinity") || ci_eq_in(cs, s, b, "nan")
        || number_in(cs, s, b)
}

/// Whether `cs[a..b]` is a YAML boolean or null word.
fn keyword_in(cs: &Vec<char>, a: usize, b: usize) -> (r: bool)
    requires
        a <= b <= cs@.len(),
    ensures
        r == yaml_keyword(cs@.subrange(a as int, b as int)),
{
    ci_eq_in(cs, a, b, "true") || ci_eq_in(cs, a, b, "false") || ci_eq_in(cs, a, b, "yes")
        || ci_eq_in(cs, a, b, "no") || ci_eq_in(cs, a, b, "on") || ci_eq_in(cs, a, b, "off")
        || ci_eq_in(cs, a, b, "~") || ci_eq_in(cs, a, b, "null")
}

/// Bounds of `cs[a..b]` without its quotes, when it is quoted.
fn quoted_in(cs: &Vec<char>, a: usize, b: usize) -> (r: bool)
    requires
        a <= b <= cs@.len(),
    ensures
        r == (is_quoted(cs@.subrange(a as int, b as int), '"') || is_quoted(
            cs@.subrange(a as int, b as int),
            '\'',
        )),
        r ==> cs@.subrange(a as int, b as int).subrange(1, b - a - 1) == cs@.subrange(
            a + 1,
            b - 1,
        ),
{
    let r = b - a >= 2 && ((cs[a] == '"' && cs[b - 1] == '"') || (cs[a] == '\'' && cs[b - 1]
        == '\''));
    proof {
        let t = cs@.subrange(a as int, b as int);
        if b - a >= 2 {
            assert(t[0] == cs@[a as int]);
            assert(t.last() == cs@[b - 1]);
            assert(t.subrange(1, b - a - 1) =~= cs@.subrange(a + 1, b - 1));
        }
    }
    r
}

/// Bounds of `cs[a..b]` without an inline comment, trimmed.
fn uncomment_in(cs: &Vec<char>, a: usize, b: usize) -> (r: (usize, usize))
    requires
        a <= b <= cs@.len(),
    ensures
        a <= r.0 <= r.1 <= b,
        cs@.subrange(r.0 as int, r.1 as int) == uncomment(cs@.subrange(a as int, b as int)),
{
    let h = pos_in(cs, a, b, '#');
    proof {
        assert(cs@.subrange(a as int, b as int).take(h - a) =~= cs@.subrange(a as int, h as int));
    }
    trim_bounds(cs, a, h)
}

/// [`quick_value`] of the trimmed value `cs[a..b]`.
fn quick_value_in(cs: &Vec<char>, a: usize, b: usize) -> (r: Option<(usize, usize)>)
    requires
        a <= b <= cs@.len(),
    ensures
        match quick_value(cs@.subrange(a as int, b as int)) {
            Some(v) => r matches Some((x, y)) && x <= y <= cs@.len() && cs@.subrange(
                x as int,
                y as int,
            ) == v,
            None => r is None,
        },
{
    if a == b {
        return None;
    }
    if quoted_in(cs, a, b) {
        return Some((a + 1, b - 1));
    }
    let (x, y) = uncomment_in(cs, a, b);
    if x == y {
        None
    } else {
        Some((x, y))
    }
}

/// [`strict_value`] of the trimmed value `cs[a..b]`.
fn strict_value_in(cs: &Vec<char>, a: usize, b: usize, is_version: bool) -> (r: Option<
    (usize, usize),
>)
    requires
        a <= b <= cs@.len(),
    ensures
        match strict_value(cs@.subrange(a as int, b as int), is_version) {
            Some(v) => r matches Some((x, y)) && x <= y <= cs@.len() && cs@.subrange(
                x as int,
                y as int,
            ) == v,
            None => r is None,
        },
{
    if a == b {
        return None;
    }
    if quoted_in(cs, a, b) {
        if b - a == 2 {
            return None;
        }
        return Some((a + 1, b - 1));
    }
    if keyword_in(cs, a, b) {
        return None;
    }
    if !is_version && number_text_in(cs, a, b) {
        return None;
    }
    let (x, y) = uncomment_in(cs, a, b);
    if x == y {
        None
    } else {
        Some((x, y))
    }
}

/// The characters of `field` followed by `:`.
fn field_key(field: &str) -> (r: Vec<char>)
    ensures
        r@ == field@.push(':'),
{
    let mut k = to_chars(field);
    k.push(':');
    k
}

/// Bounds of [`quick_field`] of `cs[lo..hi]`.
fn quick_field_in(cs: &Vec<char>, lo: usize, hi: usize, field: &str) -> (r: Option<(usize, usize)>)
    requires
        lo <= hi <= cs@.len(),
    ensures
        match quick_field(cs@.subrange(lo as int, hi as int), field@) {
            Some(v) => r matches Some((x, y)) && x <= y <= cs@.len() && cs@.subrange(
                x as int,
                y as int,
            ) == v,
            None => r is None,
        },
{
    let key = field_key(field);
    match field_rest_in(cs, lo, hi, &key) {
        None => None,
        Some((a, b)) => {
            let (ta, tb) = trim_bounds(cs, a, b);
            quick_value_in(cs, ta, tb)
        },
    }
}

/// Bounds of [`strict_field`] of `cs[lo..hi]`.
fn strict_field_in(cs: &Vec<char>, lo: usize, hi: usize, field: &str, is_version: bool) -> (r:
    Option<(usize, usize)>)
    requires
        lo <= hi <= cs@.len(),
    ensures
        match strict_field(cs@.subrange(lo as int, hi as int), field@, is_version) {
            Some(v) => r matches Some((x, y)) && x <= y <= cs@.len() && cs@.subrange(
                x as int,
                y as int,
            ) == v,
            None => r is None,
        },
{
    let key = field_key(field);
    match field_rest_in(cs, lo, hi, &key) {
        None => None,
        Some((a, b)) => {
            let (ta, tb) = trim_bounds(cs, a, b);
            strict_value_in(cs, ta, tb, is_version)
        },
    }
}

/// Bounds of the frontmatter and the body of `cs`, as
/// [`split_frontmatter`] splits them.
fn split_frontmatter_in(cs: &Vec<char>) -> (r: Option<(usize, usize, usize, usize)>)
    ensures
        match split_frontmatter(cs@) {
            Some((f, b)) => r matches Some((f0, f1, b0, b1)) && f0 <= f1 <= cs@.len() && b0 <= b1
                <= cs@.len() && cs@.subrange(f0 as int, f1 as int) == f && cs@.subrange(
                b0 as int,
                b1 as int,
            ) == b,
            None => r is None,
        },
{
    let n = cs.len();
    let open_lf = to_chars("---\n");
    let open_crlf = to_chars("---\r\n");
    proof {
        assert(cs@.take(open_lf@.len() as int) =~= cs@.subrange(0, open_lf@.len() as int));
        assert(cs@.take(open_crlf@.len() as int) =~= cs@.subrange(0, open_crlf@.len() as int));
    }
    let start = if matches_at(cs, 0, n, &open_lf) {
        open_lf.len()
    } else if matches_at(cs, 0, n, &open_crlf) {
        open_crlf.len()
    } else {
        return None;
    };
    let ghost rest = cs@.skip(start as int);
    assert(rest =~= cs@.subrange(start as int, n as int));
    let close_lf = to_chars("\n---\n");
    let close_crlf = to_chars("\n---\r\n");
    let tail = to_chars("\n---");
    match find_in(cs, start, n, &close_lf) {
        Some(p) => {
            proof {
                assert(rest.take(p - start) =~= cs@.subrange(start as int, p as int));
                assert(rest.skip(p - start + close_lf@.len()) =~= cs@.subrange(
                    p + close_lf@.len(),
                    n as int,
                ));
            }
            return Some((start, p, p + close_lf.len(), n));
        },
        None => {},
    }
    match find_in(cs, start, n, &close_crlf) {
        Some(p) => {
            proof {
                assert(rest.take(p - start) =~= cs@.subrange(start as int, p as int));
                assert(rest.skip(p - start + close_crlf@.len()) =~= cs@.subrange(
                    p + close_crlf@.len(),
                    n as int,
                ));
            }
            return Some((start, p, p + close_crlf.len(), n));
        },
        None => {},
    }
    if n - start >= tail.len() && matches_at(cs, n - tail.len(), n, &tail) {
        proof {
            assert(rest.skip(rest.len() - tail@.len()) =~= cs@.subrange(
                n - tail@.len(),
                n as int,
            ));
            assert(rest.take(rest.len() - tail@.len()) =~= cs@.subrange(
                start as int,
                n - tail@.len(),
            ));
            assert(cs@.subrange(n as int, n as int) =~= Seq::<char>::empty());
        }
        Some((start, n - tail.len(), n, n))
    } else {
        proof {
            if n - start >= tail@.len() {
                assert(rest.skip(rest.len() - tail@.len()) =~= cs@.subrange(
                    n - tail@.len(),
                    n as int,
                ));
            }
        }
        None
    }
}

/// The characters `s[a..b]` as an owned string.
fn owned_sub(s: &str, a: usize, b: usize) -> (r: String)
    requires
        a <= b <= s@.len(),
    ensures
        r@ == s@.subrange(a as int, b as int),
{
    s.substring_char(a, b).to_owned()
}

/// An optional range of `s` as an owned string.
fn owned_opt(s: &str, r: Option<(usize, usize)>) -> (o: Option<String>)
    requires
        r matches Some((a, b)) ==> a <= b <= s@.len(),
    ensures
        match r {
            Some((a, b)) => o is Some && o->0@ == s@.subrange(a as int, b as int),
            None => o is None,
        },
{
    match r {
        Some((a, b)) => Some(owned_sub(s, a, b)),
        None => None,
    }
}

/// What `serde_saphyr::from_str` reports when it reads `text` as a YAML
/// document into `serde::de::IgnoredAny`: `None` when it accepts the text,
/// otherwise the text of its error.
pub uninterp spec fn yaml_error(text: Seq<char>) -> Option<Seq<char>>;

/// Runs `serde_saphyr::from_str::<serde::de::IgnoredAny>` on `text` and
/// returns the error's `Display` text when the YAML is rejected. The
/// contract only names the outcome: which texts the YAML reader rejects, and
/// with which message, is left to the crate.
#[verifier::external_body]
fn check_yaml(text: &str) -> (r: Option<String>)
    ensures
        match yaml_error(text@) {
            Some(m) => r is Some && r->0@ == m,
            None => r is None,
        },
{
    match serde_saphyr::from_str::<serde::de::IgnoredAny>(text) {
        Ok(_) => None,
        Err(e) => Some(e.to_string()),
    }
}

impl DomainSkill {
    /// Builds a skill from its frontmatter and body, given the outcome of
    /// the YAML check on the frontmatter (`Some(message)` when the YAML was
    /// rejected).
    ///
    /// The fields `id`, `title`, `description` and `version` must be string
    /// values and the body must not be blank; the instructions are the
    /// trimmed body.
    pub fn from_frontmatter(
        frontmatter: &str,
        body: &str,
        yaml_error: Option<String>,
    ) -> (r: Result<Self, MarkdownSkillError>)
        ensures
            outcome_view(r) == parse_parts(
                frontmatter@,
                body@,
                match yaml_error {
                    Some(m) => Some(m@),
                    None => None,
                },
            ),
    {
        let fc = to_chars(frontmatter);
        let n = fc.len();
        assert(fc@.subrange(0, n as int) =~= frontmatter@);
        let sid = owned_opt(frontmatter, quick_field_in(&fc, 0, n, "id"));
        let stitle = owned_opt(frontmatter, quick_field_in(&fc, 0, n, "title"));
        if let Some(msg) = yaml_error {
            return Err(MarkdownSkillError::YamlParse { id: sid, title: stitle, msg });
        }
        let id = match strict_field_in(&fc, 0, n, "id", false) {
            None => {
                return Err(
                    MarkdownSkillError::MissingField {
                        id: sid,
                        title: stitle,
                        field: String::from_str("id"),
                    },
                );
            },
            Some((a, b)) => owned_sub(frontmatter, a, b),
        };
        let title = match strict_field_in(&fc, 0, n, "title", false) {
            None => {
                return Err(
                    MarkdownSkillError::MissingField {
                        id: Some(id),
                        title: None,
                        field: String::from_str("title"),
                    },
                );
            },
            Some((a, b)) => owned_sub(frontmatter, a, b),
        };
        let description = match strict_field_in(&fc, 0, n, "description", false) {
            None => {
                return Err(
                    MarkdownSkillError::MissingField {
                        id: Some(id),
                        title: Some(title),
                        field: String::from_str("description"),
                    },
                );
            },
            Some((a, b)) => owned_sub(frontmatter, a, b),
        };
        let version = match strict_field_in(&fc, 0, n, "version", true) {
            None => {
                return Err(
                    MarkdownSkillError::MissingField {
                        id: Some(id),
                        title: Some(title),
                        field: String::from_str("version"),
                    },
                );
            },
            Some((a, b)) => owned_sub(frontmatter, a, b),
        };
        let bc = to_chars(body);
        let (x, y) = trim_bounds(&bc, 0, bc.len());
        assert(bc@.subrange(0, bc@.len() as int) =~= body@);
        if x == y {
            return Err(MarkdownSkillError::EmptyBody { id: Some(id), title: Some(title) });
        }
        let instructions = owned_sub(body, x, y);
        Ok(DomainSkill { id, title, description, instructions, version })
    }

    /// Parses a skill from markdown with YAML frontmatter.
    ///
    /// Fails with `InvalidDelimiters` when the opening `---` line or the
    /// closing `---` line is missing, with `YamlParse` when the frontmatter
    /// is not valid YAML, with `MissingField` when `id`, `title`,
    /// `description` or `version` is missing or not a string, and with
    /// `EmptyBody` when the body is blank.
    pub fn from_markdown(content: &str) -> (r: Result<Self, MarkdownSkillError>)
        ensures
            match split_frontmatter(content@) {
                None => r matches Err(MarkdownSkillError::InvalidDelimiters { id: None, title: None }),
                Some((f, b)) => outcome_view(r) == parse_parts(f, b, yaml_error(f)),
            },
    {
        let cs = to_chars(content);
        match split_frontmatter_in(&cs) {
            None => Err(MarkdownSkillError::InvalidDelimiters { id: None, title: None }),
            Some((f0, f1, b0, b1)) => {
                let front = content.substring_char(f0, f1);
                let body = content.substring_char(b0, b1);
                let checked = check_yaml(front);
                Self::from_frontmatter(front, body, checked)
            },
        }
    }
}

} // verus!
