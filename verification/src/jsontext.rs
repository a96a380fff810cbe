use crate::jsonnum::{
    digit, digit_val, hex_val_of, is_lower_hex, lemma_char_scalar_identity, lemma_digit_val_inverse,
    lemma_hex_char_inverse,
};
use crate::text::{lemma_matches_split, matches_at};
use vstd::prelude::*;
use vstd::string::StrSliceExecFns;

verus! {

/// How one character is spelled inside a quoted string: quotes and
/// backslashes get a backslash escape, control characters a four-digit
/// lowercase hexadecimal escape, everything else stands for itself.
pub open spec fn esc_char(c: char) -> Seq<char> {
    if c == '"' {
        seq!['\\', '"']
    } else if c == '\\' {
        seq!['\\', '\\']
    } else if (c as u32) < 32 {
        seq![
            '\\',
            'u',
            '0',
            '0',
            digit(((c as u32) / 16) as int),
            digit(((c as u32) % 16) as int),
        ]
    } else {
        seq![c]
    }
}

/// The spelling of a whole text inside a quoted string.
pub open spec fn esc(s: Seq<char>) -> Seq<char>
    decreases s.len(),
{
    if s.len() == 0 {
        Seq::empty()
    } else {
        esc_char(s[0]) + esc(s.subrange(1, s.len() as int))
    }
}

/// Escaping distributes over concatenation.
pub proof fn lemma_esc_append(a: Seq<char>, b: Seq<char>)
    ensures
        esc(a + b) == esc(a) + esc(b),
    decreases a.len(),
{
    if a.len() == 0 {
        assert(a + b =~= b);
        assert(esc(a) + esc(b) =~= esc(b));
    } else {
        let arest = a.subrange(1, a.len() as int);
        assert((a + b)[0] == a[0]);
        assert((a + b).subrange(1, (a + b).len() as int) =~= arest + b);
        lemma_esc_append(arest, b);
        assert(esc(a + b) == esc_char(a[0]) + (esc(arest) + esc(b)));
        assert(esc_char(a[0]) + (esc(arest) + esc(b)) =~= (esc_char(a[0]) + esc(arest)) + esc(b));
    }
}

/// A parse in progress: the characters read so far put in front of
/// whatever the rest of the parse yields.
pub open spec fn prefixed(pre: Seq<char>, r: Option<(Seq<char>, int)>) -> Option<(Seq<char>, int)> {
    match r {
        Some((t, j)) => Some((pre + t, j)),
        None => None,
    }
}

/// Reads a quoted string body starting at `i`, up to and over the closing
/// quote: plain characters stand for themselves; a backslash introduces an
/// escaped quote, an escaped backslash, or a four-digit lowercase
/// hexadecimal spelling of a control character; a bare control character,
/// any other escape, or a missing closing quote is refused.
pub open spec fn parse_string_body(s: Seq<char>, i: int) -> Option<(Seq<char>, int)>
    decreases s.len() - i,
{
    if i < 0 || i >= s.len() {
        None
    } else if s[i] == '"' {
        Some((Seq::empty(), i + 1))
    } else if s[i] == '\\' {
        if i + 1 < s.len() && s[i + 1] == '"' {
            prefixed(seq!['"'], parse_string_body(s, i + 2))
        } else if i + 1 < s.len() && s[i + 1] == '\\' {
            prefixed(seq!['\\'], parse_string_body(s, i + 2))
        } else if i + 5 < s.len() && s[i + 1] == 'u' && s[i + 2] == '0' && s[i + 3] == '0'
            && is_lower_hex(s[i + 4]) && is_lower_hex(s[i + 5]) && digit_val(s[i + 4]) * 16
            + digit_val(s[i + 5]) < 32 {
            prefixed(
                seq![((digit_val(s[i + 4]) * 16 + digit_val(s[i + 5])) as u8) as char],
                parse_string_body(s, i + 6),
            )
        } else {
            None
        }
    } else if (s[i] as u32) < 32 {
        None
    } else {
        prefixed(seq![s[i]], parse_string_body(s, i + 1))
    }
}

/// The escaped spelling of any text, followed by the closing quote, parses
/// back to that text.
pub proof fn lemma_parse_string_complete(s: Seq<char>, i: int, content: Seq<char>)
    requires
        matches_at(s, i, esc(content).push('"')),
    ensures
        parse_string_body(s, i) == Some((content, i + esc(content).len() + 1)),
    decreases content.len(),
{
    assert(esc(content).push('"') =~= esc(content) + seq!['"']);
    lemma_matches_split(s, i, esc(content), seq!['"']);
    if content.len() == 0 {
        assert(s.subrange(i, i + 1)[0] == '"');
        assert(s[i] == '"');
    } else {
        let c = content[0];
        let rest = content.subrange(1, content.len() as int);
        let e = esc_char(c);
        assert(esc(content) == e + esc(rest));
        lemma_matches_split(s, i, e, esc(rest));
        assert forall|k: int| 0 <= k < e.len() implies s[i + k] == e[k] by {
            assert(s.subrange(i, i + e.len())[k] == e[k]);
        }
        assert(esc(rest).push('"') =~= esc(rest) + seq!['"']);
        lemma_matches_split(s, i + e.len(), esc(rest), seq!['"']);
        assert(matches_at(s, i + e.len(), esc(rest).push('"')));
        lemma_parse_string_complete(s, i + e.len(), rest);
        assert(seq![c] + rest =~= content);
        if c == '"' {
            assert(s[i] == '\\' && s[i + 1] == '"');
        } else if c == '\\' {
            assert(s[i] == '\\' && s[i + 1] == '\\');
        } else if (c as u32) < 32 {
            let cv = c as u32;
            let hi = cv / 16;
            let lo = cv % 16;
            assert(s[i] == '\\' && s[i + 1] == 'u' && s[i + 2] == '0' && s[i + 3] == '0');
            assert(s[i + 4] == digit(hi as int) && s[i + 5] == digit(lo as int));
            lemma_digit_val_inverse(hi as int);
            lemma_digit_val_inverse(lo as int);
            assert(digit_val(s[i + 4]) * 16 + digit_val(s[i + 5]) == cv);
            lemma_char_scalar_identity(c);
            assert(((cv as u8) as char) == c);
        } else {
            assert(s[i] == c);
        }
    }
}

/// Whatever the string parser accepts is the escaped spelling of its
/// result, closing quote included.
pub proof fn lemma_parse_string_sound(s: Seq<char>, i: int)
    requires
        0 <= i <= s.len(),
        parse_string_body(s, i) is Some,
    ensures
        ({
            let (content, j) = parse_string_body(s, i)->Some_0;
            &&& i < j <= s.len()
            &&& j == i + esc(content).len() + 1
            &&& matches_at(s, i, esc(content).push('"'))
        }),
    decreases s.len() - i,
{
    let (content, j) = parse_string_body(s, i)->Some_0;
    if s[i] == '"' {
        assert(content =~= Seq::<char>::empty());
        assert(esc(content).push('"') =~= seq!['"']);
        assert(s.subrange(i, i + 1) =~= seq!['"']);
    } else {
        let (e, c, nexti): (Seq<char>, char, int) = if s[i] == '\\' {
            if i + 1 < s.len() && s[i + 1] == '"' {
                (seq!['\\', '"'], '"', i + 2)
            } else if i + 1 < s.len() && s[i + 1] == '\\' {
                (seq!['\\', '\\'], '\\', i + 2)
            } else {
                let hv = digit_val(s[i + 4]) * 16 + digit_val(s[i + 5]);
                (s.subrange(i, i + 6), (hv as u8) as char, i + 6)
            }
        } else {
            (seq![s[i]], s[i], i + 1)
        };
        lemma_parse_string_sound(s, nexti);
        let (rest, j2) = parse_string_body(s, nexti)->Some_0;
        assert(content == seq![c] + rest);
        assert(j == j2);
        // the consumed characters are exactly the escape of the produced one
        if s[i] == '\\' && !(i + 1 < s.len() && s[i + 1] == '"') && !(i + 1 < s.len() && s[i + 1]
            == '\\') {
            let hv = digit_val(s[i + 4]) * 16 + digit_val(s[i + 5]);
            assert(0 <= hv < 32);
            assert((c as u32) == hv);
            assert(c != '"' && c != '\\');
            lemma_hex_char_inverse(s[i + 4]);
            lemma_hex_char_inverse(s[i + 5]);
            vstd::arithmetic::div_mod::lemma_fundamental_div_mod_converse_div(
                hv,
                16,
                digit_val(s[i + 4]),
                digit_val(s[i + 5]),
            );
            vstd::arithmetic::div_mod::lemma_fundamental_div_mod_converse_mod(
                hv,
                16,
                digit_val(s[i + 4]),
                digit_val(s[i + 5]),
            );
            assert(digit(((c as u32) / 16) as int) == s[i + 4]);
            assert(digit(((c as u32) % 16) as int) == s[i + 5]);
            assert(esc_char(c) =~= e);
        } else {
            assert(esc_char(c) =~= e);
        }
        assert forall|k: int| 0 <= k < e.len() implies s.subrange(i, i + e.len())[k] == e[k] by {
            assert(s.subrange(i, i + e.len())[k] == s[i + k]);
        }
        assert(s.subrange(i, i + e.len()) =~= e);
        assert(matches_at(s, i, e));
        assert(esc(content) == esc(seq![c] + rest));
        lemma_esc_append(seq![c], rest);
        assert(seq![c].subrange(1, 1) =~= Seq::<char>::empty());
        assert(esc(Seq::<char>::empty()) == Seq::<char>::empty());
        assert(esc(seq![c]) =~= esc_char(c));
        assert(esc(content) == esc_char(c) + esc(rest));
        assert(esc(rest).push('"') =~= esc(rest) + seq!['"']);
        lemma_matches_split(s, nexti, esc(rest), seq!['"']);
        lemma_matches_split(s, i, e, esc(rest));
        assert(matches_at(s, i, e + esc(rest)));
        assert(esc(content).push('"') =~= (e + esc(rest)) + seq!['"']);
        lemma_matches_split(s, i, e + esc(rest), seq!['"']);
    }
}

/// Appends the escaped spelling of `s`.
pub fn push_escaped(out: &mut Vec<char>, s: &str)
    ensures
        final(out)@ == old(out)@ + esc(s@),
{
    let n = s.unicode_len();
    let mut i: usize = 0;
    proof {
        assert(s@.take(0) =~= Seq::<char>::empty());
        assert(out@ =~= old(out)@ + esc(s@.take(0)));
    }
    while i < n
        invariant
            0 <= i <= n,
            n == s@.len(),
            out@ == old(out)@ + esc(s@.take(i as int)),
        decreases n - i,
    {
        let ghost prefix = s@.take(i as int);
        let c = s.get_char(i);
        let cv = c as u32;
        if c == '"' {
            out.push('\\');
            out.push('"');
        } else if c == '\\' {
            out.push('\\');
            out.push('\\');
        } else if cv < 32 {
            out.push('\\');
            out.push('u');
            out.push('0');
            out.push('0');
            out.push(crate::jsonnum::digit_char_of((cv / 16) as u64));
            out.push(crate::jsonnum::digit_char_of((cv % 16) as u64));
        } else {
            out.push(c);
        }
        i += 1;
        proof {
            assert(s@.take(i as int) =~= prefix + seq![c]);
            lemma_esc_append(prefix, seq![c]);
            assert(seq![c].subrange(1, 1) =~= Seq::<char>::empty());
            assert(esc(Seq::<char>::empty()) == Seq::<char>::empty());
            assert(esc(seq![c]) =~= esc_char(c));
            assert(out@ =~= old(out)@ + (esc(prefix) + esc_char(c)));
        }
    }
    proof {
        assert(s@.take(n as int) =~= s@);
    }
}

/// Reads a quoted string body, refining the string parser.
pub fn scan_string(v: &Vec<char>, i: usize) -> (r: Option<(Vec<char>, usize)>)
    requires
        i <= v@.len(),
    ensures
        match r {
            Some((content, j)) => parse_string_body(v@, i as int) == Some((content@, j as int))
                && i < j <= v@.len(),
            None => parse_string_body(v@, i as int) is None,
        },
{
    let len = v.len();
    let mut content: Vec<char> = Vec::new();
    let mut p = i;
    proof {
        assert(Seq::<char>::empty() + parse_string_body(v@, i as int)->Some_0.0 =~= parse_string_body(
            v@,
            i as int,
        )->Some_0.0);
    }
    loop
        invariant
            i <= p <= len,
            len == v@.len(),
            parse_string_body(v@, i as int) == prefixed(
                content@,
                parse_string_body(v@, p as int),
            ),
        decreases len - p,
    {
        if p >= len {
            return None;
        }
        let c = v[p];
        let ghost pre = content@;
        let ghost oldp = p as int;
        if c == '"' {
            proof {
                assert(pre + Seq::<char>::empty() =~= pre);
            }
            return Some((content, p + 1));
        }
        if c == '\\' {
            if p + 1 < len && v[p + 1] == '"' {
                content.push('"');
                p = p + 2;
                proof {
                    lemma_step(v@, i as int, pre, oldp, seq!['"'], p as int);
                }
            } else if p + 1 < len && v[p + 1] == '\\' {
                content.push('\\');
                p = p + 2;
                proof {
                    lemma_step(v@, i as int, pre, oldp, seq!['\\'], p as int);
                }
            } else if len - p > 5 && v[p + 1] == 'u' && v[p + 2] == '0' && v[p + 3] == '0' {
                let c4 = v[p + 4];
                let c5 = v[p + 5];
                let v4 = c4 as u32;
                let v5 = c5 as u32;
                let hex4 = (48 <= v4 && v4 <= 57) || (97 <= v4 && v4 <= 102);
                let hex5 = (48 <= v5 && v5 <= 57) || (97 <= v5 && v5 <= 102);
                if hex4 && hex5 {
                    let d4 = hex_val_of(c4);
                    let d5 = hex_val_of(c5);
                    let hv = d4 * 16 + d5;
                    if hv < 32 {
                        content.push((hv as u8) as char);
                        p = p + 6;
                        proof {
                            lemma_step(
                                v@,
                                i as int,
                                pre,
                                oldp,
                                seq![((hv as int) as u8) as char],
                                p as int,
                            );
                        }
                    } else {
                        return None;
                    }
                } else {
                    return None;
                }
            } else {
                return None;
            }
        } else {
            let cv = c as u32;
            if cv < 32 {
                return None;
            }
            content.push(c);
            p = p + 1;
            proof {
                lemma_step(v@, i as int, pre, oldp, seq![c], p as int);
            }
        }
    }
}

/// One consumed production keeps the parse-in-progress equation.
proof fn lemma_step(s: Seq<char>, i: int, pre: Seq<char>, oldp: int, got: Seq<char>, newp: int)
    requires
        parse_string_body(s, i) == prefixed(pre, parse_string_body(s, oldp)),
        parse_string_body(s, oldp) == prefixed(got, parse_string_body(s, newp)),
    ensures
        parse_string_body(s, i) == prefixed(pre + got, parse_string_body(s, newp)),
{
    match parse_string_body(s, newp) {
        Some((t, j)) => {
            assert(pre + (got + t) =~= (pre + got) + t);
        }
        None => {}
    }
}

} // verus!
