//! Compact JSON text for a one-field object with a string value, as
//! `serde_json` writes it.

use vstd::prelude::*;

use crate::text::to_chars;

verus! {

broadcast use vstd::string::group_string_axioms;

/// Lowercase hexadecimal digit `n` (`0 <= n < 16`).
pub open spec fn hex_digit(n: int) -> char {
    "0123456789abcdef"@[n]
}

/// How a character is written inside a JSON string: `"` and `\` are
/// escaped, the control characters below U+0020 use their short escape when
/// they have one and `\u00XX` otherwise, every other character is kept.
pub open spec fn escape_char(c: char) -> Seq<char> {
    if c == '"' {
        "\\\""@
    } else if c == '\\' {
        "\\\\"@
    } else if c == '\n' {
        "\\n"@
    } else if c == '\r' {
        "\\r"@
    } else if c == '\t' {
        "\\t"@
    } else if c == '\x08' {
        "\\b"@
    } else if c == '\x0C' {
        "\\f"@
    } else if (c as u32) < 0x20 {
        "\\u00"@ + seq![hex_digit((c as u32) as int / 16), hex_digit((c as u32) as int % 16)]
    } else {
        seq![c]
    }
}

/// The escaped characters of `s`.
pub open spec fn escape(s: Seq<char>) -> Seq<char>
    decreases s.len(),
{
    if s.len() == 0 {
        Seq::empty()
    } else {
        escape_char(s[0]) + escape(s.drop_first())
    }
}

/// `s` as a JSON string literal.
pub open spec fn json_string(s: Seq<char>) -> Seq<char> {
    "\""@ + escape(s) + "\""@
}

/// The compact JSON text of the object `{key: value}` with a string value.
pub open spec fn json_object1(key: Seq<char>, value: Seq<char>) -> Seq<char> {
    "{"@ + json_string(key) + ":"@ + json_string(value) + "}"@
}

proof fn lemma_escape_push(s: Seq<char>, c: char)
    ensures
        escape(s.push(c)) == escape(s) + escape_char(c),
    decreases s.len(),
{
    if s.len() == 0 {
        assert(s.push(c).drop_first() =~= Seq::<char>::empty());
        assert(escape(Seq::<char>::empty()) == Seq::<char>::empty());
        assert(s.push(c)[0] == c);
        assert(escape(s.push(c)) =~= escape_char(c));
    } else {
        lemma_escape_push(s.drop_first(), c);
        assert(s.push(c).drop_first() =~= s.drop_first().push(c));
        assert(escape(s.push(c)) =~= escape(s) + escape_char(c));
    }
}

// ---------------------------------------------------------------------------
// Reading JSON text back, as the JSON grammar (RFC 8259) defines it

/// The value of a hexadecimal digit, either case.
pub open spec fn hex_value(c: char) -> Option<int> {
    if '0' <= c && c <= '9' {
        Some(c as int - '0' as int)
    } else if 'a' <= c && c <= 'f' {
        Some(c as int - 'a' as int + 10)
    } else if 'A' <= c && c <= 'F' {
        Some(c as int - 'A' as int + 10)
    } else {
        None
    }
}

/// The character a two-character escape `\e` stands for.
pub open spec fn short_escape(e: char) -> Option<char> {
    if e == '"' {
        Some('"')
    } else if e == '\\' {
        Some('\\')
    } else if e == '/' {
        Some('/')
    } else if e == 'b' {
        Some('\x08')
    } else if e == 'f' {
        Some('\x0C')
    } else if e == 'n' {
        Some('\n')
    } else if e == 'r' {
        Some('\r')
    } else if e == 't' {
        Some('\t')
    } else {
        None
    }
}

/// The character a `\uXXXX` escape with digits `t[0..4]` stands for
/// (escapes of UTF-16 surrogate halves are left out).
pub open spec fn unicode_escape(t: Seq<char>) -> Option<char> {
    match (hex_value(t[0]), hex_value(t[1]), hex_value(t[2]), hex_value(t[3])) {
        (Some(a), Some(b), Some(c), Some(d)) => {
            let code = ((a * 16 + b) * 16 + c) * 16 + d;
            if 0xD800 <= code <= 0xDFFF {
                None
            } else {
                Some((code as u32) as char)
            }
        },
        _ => None,
    }
}

/// Reads the rest of a JSON string literal whose opening quote was already
/// read: the characters it stands for and the text after its closing quote;
/// `None` when `t` holds no well-formed rest of a literal (an unescaped
/// control character, an unknown escape, or no closing quote).
pub open spec fn read_string(t: Seq<char>) -> Option<(Seq<char>, Seq<char>)>
    decreases t.len(),
{
    if t.len() == 0 {
        None
    } else if t[0] == '"' {
        Some((Seq::empty(), t.drop_first()))
    } else if t[0] == '\\' {
        if t.len() < 2 {
            None
        } else {
            let decoded = match short_escape(t[1]) {
                Some(c) => Some((c, 2int)),
                None => if t[1] == 'u' && t.len() >= 6 {
                    match unicode_escape(t.subrange(2, 6)) {
                        Some(c) => Some((c, 6int)),
                        None => None,
                    }
                } else {
                    None
                },
            };
            match decoded {
                Some((c, k)) => match read_string(t.skip(k)) {
                    Some((d, r)) => Some((seq![c] + d, r)),
                    None => None,
                },
                None => None,
            }
        }
    } else if (t[0] as u32) < 0x20 {
        None
    } else {
        match read_string(t.drop_first()) {
            Some((d, r)) => Some((seq![t[0]] + d, r)),
            None => None,
        }
    }
}

/// Reads JSON text holding exactly one object with one string member:
/// its key and its value.
pub open spec fn read_object1(t: Seq<char>) -> Option<(Seq<char>, Seq<char>)> {
    if t.len() < 2 || t[0] != '{' || t[1] != '"' {
        None
    } else {
        match read_string(t.skip(2)) {
            None => None,
            Some((key, r)) => if r.len() < 2 || r[0] != ':' || r[1] != '"' {
                None
            } else {
                match read_string(r.skip(2)) {
                    None => None,
                    Some((value, r2)) => if r2 == seq!['}'] {
                        Some((key, value))
                    } else {
                        None
                    },
                }
            },
        }
    }
}

proof fn lemma_hex_digit_value(n: int)
    requires
        0 <= n < 16,
    ensures
        hex_value(hex_digit(n)) == Some(n),
{
    reveal_strlit("0123456789abcdef");
    assert("0123456789abcdef"@[n] == "0123456789abcdef"@[n]);
}

proof fn lemma_read_escaped_char(c: char, x: Seq<char>)
    ensures
        read_string(escape_char(c) + x) == match read_string(x) {
            Some((d, r)) => Some((seq![c] + d, r)),
            None => None,
        },
{
    reveal_strlit("\\\"");
    reveal_strlit("\\\\");
    reveal_strlit("\\n");
    reveal_strlit("\\r");
    reveal_strlit("\\t");
    reveal_strlit("\\b");
    reveal_strlit("\\f");
    reveal_strlit("\\u00");
    let t = escape_char(c) + x;
    if c == '"' || c == '\\' || c == '\n' || c == '\r' || c == '\t' || c == '\x08' || c == '\x0C' {
        assert(escape_char(c).len() == 2);
        assert(t[0] == '\\');
        assert(t[1] == escape_char(c)[1]);
        assert(short_escape(t[1]) == Some(c));
        assert(t.skip(2) =~= x);
    } else if (c as u32) < 0x20 {
        let u = c as u32;
        let hi = u as int / 16;
        let lo = u as int % 16;
        lemma_hex_digit_value(hi);
        lemma_hex_digit_value(lo);
        assert(escape_char(c).len() == 6);
        assert(t[0] == '\\');
        assert(t[1] == 'u');
        assert(short_escape(t[1]) is None);
        let h = t.subrange(2, 6);
        assert(h =~= seq!['0', '0', hex_digit(hi), hex_digit(lo)]);
        assert(hex_value('0') == Some(0int));
        assert(((0 * 16 + 0) * 16 + hi) * 16 + lo == u as int);
        assert(((u as int) as u32) as char == c);
        assert(unicode_escape(h) == Some(c));
        assert(t.skip(6) =~= x);
    } else {
        assert(t[0] == c);
        assert(t.drop_first() =~= x);
    }
}

/// Reading back what `escape` wrote: the characters of any string, escaped
/// and followed by a closing quote, read as the rest of a JSON string
/// literal give back exactly that string, and the text after the quote is
/// left as it was.
pub proof fn lemma_escape_reads_back(s: Seq<char>, rest: Seq<char>)
    ensures
        read_string(escape(s) + seq!['"'] + rest) == Some((s, rest)),
    decreases s.len(),
{
    if s.len() == 0 {
        assert(escape(s) + seq!['"'] + rest =~= seq!['"'] + rest);
        assert((seq!['"'] + rest).drop_first() =~= rest);
    } else {
        lemma_escape_reads_back(s.drop_first(), rest);
        let x = escape(s.drop_first()) + seq!['"'] + rest;
        lemma_read_escaped_char(s[0], x);
        assert(escape(s) + seq!['"'] + rest =~= escape_char(s[0]) + x);
        assert(seq![s[0]] + s.drop_first() =~= s);
    }
}

/// The JSON object written for `{key: value}` is valid JSON that a JSON
/// reader reads back as one object whose single member has exactly that
/// key and exactly that value, whatever characters (quotes, backslashes,
/// control characters) they hold.
pub proof fn lemma_object1_reads_back(key: Seq<char>, value: Seq<char>)
    ensures
        read_object1(json_object1(key, value)) == Some((key, value)),
{
    reveal_strlit("{");
    reveal_strlit("\"");
    reveal_strlit(":");
    reveal_strlit("}");
    let t = json_object1(key, value);
    let tail = seq![':', '"'] + escape(value) + seq!['"'] + seq!['}'];
    assert(t =~= seq!['{', '"'] + (escape(key) + seq!['"'] + tail));
    assert(t.skip(2) =~= escape(key) + seq!['"'] + tail);
    lemma_escape_reads_back(key, tail);
    assert(tail.skip(2) =~= escape(value) + seq!['"'] + seq!['}']);
    lemma_escape_reads_back(value, seq!['}']);
}

/// Appends the escaped characters of `s` to `out`.
fn push_escaped(out: &mut String, s: &str)
    ensures
        final(out)@ == old(out)@ + escape(s@),
{
    let cs = to_chars(s);
    let hex = "0123456789abcdef";
    proof {
        reveal_strlit("0123456789abcdef");
    }
    let mut i: usize = 0;
    while i < cs.len()
        invariant
            cs@ == s@,
            i <= cs@.len(),
            hex@ == "0123456789abcdef"@,
            hex@.len() == 16,
            out@ == old(out)@ + escape(s@.take(i as int)),
        decreases cs@.len() - i,
    {
        let c = cs[i];
        let ghost before = out@;
        if c == '"' {
            out.append("\\\"");
        } else if c == '\\' {
            out.append("\\\\");
        } else if c == '\n' {
            out.append("\\n");
        } else if c == '\r' {
            out.append("\\r");
        } else if c == '\t' {
            out.append("\\t");
        } else if c == '\x08' {
            out.append("\\b");
        } else if c == '\x0C' {
            out.append("\\f");
        } else if (c as u32) < 0x20 {
            let n = c as u32;
            out.append("\\u00");
            let hi = (n / 16) as usize;
            let lo = (n % 16) as usize;
            out.append(hex.substring_char(hi, hi + 1));
            out.append(hex.substring_char(lo, lo + 1));
            proof {
                assert(hex@.subrange(hi as int, hi + 1) =~= seq![hex_digit(hi as int)]);
                assert(hex@.subrange(lo as int, lo + 1) =~= seq![hex_digit(lo as int)]);
            }
        } else {
            out.append(s.substring_char(i, i + 1));
            proof {
                assert(s@.subrange(i as int, i + 1) =~= seq![c]);
            }
        }
        proof {
            assert(out@ =~= before + escape_char(c));
            assert(s@.take(i + 1) =~= s@.take(i as int).push(c));
            lemma_escape_push(s@.take(i as int), c);
        }
        i = i + 1;
    }
    proof {
        assert(s@.take(cs@.len() as int) =~= s@);
    }
}

/// The compact JSON text of `{key: value}`.
pub fn json_object1_text(key: &str, value: &str) -> (r: String)
    ensures
        r@ == json_object1(key@, value@),
        read_object1(r@) == Some((key@, value@)),
{
    let mut r = String::from_str("{\"");
    push_escaped(&mut r, key);
    r.append("\":\"");
    push_escaped(&mut r, value);
    r.append("\"}");
    proof {
        reveal_strlit("{\"");
        reveal_strlit("\":\"");
        reveal_strlit("\"}");
        reveal_strlit("{");
        reveal_strlit("\"");
        reveal_strlit(":");
        reveal_strlit("}");
        assert(r@ =~= json_object1(key@, value@));
        lemma_object1_reads_back(key@, value@);
    }
    r
}

} // verus!
