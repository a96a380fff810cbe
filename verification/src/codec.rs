use crate::clip::{Clip, ClipView};
use crate::errors::CodecError;
use crate::jsonnum::{dec_u64, is_digit, parse_u64};
use crate::jsontext::{esc, parse_string_body, push_escaped};
use crate::payload::{Payload, PayloadView};
use crate::text::{chars_to_string, lemma_matches_split, match_lit, matches_at, push_str_chars, string_to_chars};
use vstd::prelude::*;

verus! {

/// The opening of an authentication request, up to the first character of
/// the name value.
pub open spec fn auth_prefix() -> Seq<char> {
    "{\"type\":\"auth\",\"name\":\""@
}

/// Between the name value and the first character of the token value.
pub open spec fn token_sep() -> Seq<char> {
    ",\"token\":\""@
}

/// The opening of an authentication answer, up to its verdict.
pub open spec fn result_prefix() -> Seq<char> {
    "{\"success\":"@
}

/// The opening of a clip, up to the first character of the text value.
pub open spec fn clip_prefix() -> Seq<char> {
    "{\"text\":\""@
}

/// Between the text value and the first digit of the timestamp.
pub open spec fn ts_sep() -> Seq<char> {
    ",\"timestamp\":"@
}

/// The canonical wire spelling of a payload: one JSON object per message,
/// fields in a fixed order, strings escaped as `esc` spells them, the
/// timestamp in canonical decimal.
pub open spec fn spec_encode(v: PayloadView) -> Seq<char> {
    match v {
        PayloadView::Auth { name, token } => auth_prefix() + esc(name) + seq!['"'] + token_sep()
            + esc(token) + seq!['"', '}'],
        PayloadView::AuthResult { success } => if success {
            result_prefix() + "true}"@
        } else {
            result_prefix() + "false}"@
        },
        PayloadView::Clip(c) => clip_prefix() + esc(c.text) + seq!['"'] + ts_sep() + dec_u64(
            c.timestamp as nat,
        ) + seq!['}'],
    }
}

/// Reads an authentication request after its opening.
pub open spec fn spec_decode_auth(s: Seq<char>) -> Option<PayloadView> {
    match parse_string_body(s, auth_prefix().len() as int) {
        Some((name, j)) => if matches_at(s, j, token_sep()) {
            match parse_string_body(s, j + token_sep().len()) {
                Some((token, k)) => if k + 1 == s.len() && s[k] == '}' {
                    Some(PayloadView::Auth { name, token })
                } else {
                    None
                },
                None => None,
            }
        } else {
            None
        },
        None => None,
    }
}

/// Reads an authentication answer after its opening.
pub open spec fn spec_decode_result(s: Seq<char>) -> Option<PayloadView> {
    let i = result_prefix().len() as int;
    if matches_at(s, i, "true}"@) && s.len() == i + "true}"@.len() {
        Some(PayloadView::AuthResult { success: true })
    } else if matches_at(s, i, "false}"@) && s.len() == i + "false}"@.len() {
        Some(PayloadView::AuthResult { success: false })
    } else {
        None
    }
}

/// Reads a clip after its opening.
pub open spec fn spec_decode_clip(s: Seq<char>) -> Option<PayloadView> {
    match parse_string_body(s, clip_prefix().len() as int) {
        Some((text, j)) => if matches_at(s, j, ts_sep()) {
            match parse_u64(s, j + ts_sep().len()) {
                Some((ts, k)) => if k + 1 == s.len() && s[k] == '}' {
                    Some(PayloadView::Clip(ClipView { text, timestamp: ts }))
                } else {
                    None
                },
                None => None,
            }
        } else {
            None
        },
        None => None,
    }
}

/// Reads any payload: the message kind is told apart by its opening, and
/// anything that is not exactly a canonical spelling is refused.
pub open spec fn spec_decode(s: Seq<char>) -> Option<PayloadView> {
    if matches_at(s, 0, auth_prefix()) {
        spec_decode_auth(s)
    } else if matches_at(s, 0, result_prefix()) {
        spec_decode_result(s)
    } else if matches_at(s, 0, clip_prefix()) {
        spec_decode_clip(s)
    } else {
        None
    }
}

/// Writes the canonical wire spelling of a payload.
pub fn encode_payload(p: &Payload) -> (r: String)
    ensures
        r@ == spec_encode(p@),
{
    let mut out: Vec<char> = Vec::new();
    match p {
        Payload::Auth { name, token } => {
            push_str_chars(&mut out, "{\"type\":\"auth\",\"name\":\"");
            push_escaped(&mut out, name.as_str());
            out.push('"');
            push_str_chars(&mut out, ",\"token\":\"");
            push_escaped(&mut out, token.as_str());
            out.push('"');
            out.push('}');
            proof {
                assert(out@ =~= auth_prefix() + esc(name@) + seq!['"'] + token_sep() + esc(token@)
                    + seq!['"', '}']);
            }
        }
        Payload::AuthResult { success } => {
            push_str_chars(&mut out, "{\"success\":");
            if *success {
                push_str_chars(&mut out, "true}");
            } else {
                push_str_chars(&mut out, "false}");
            }
        }
        Payload::Clip(c) => {
            push_str_chars(&mut out, "{\"text\":\"");
            push_escaped(&mut out, c.text.as_str());
            out.push('"');
            push_str_chars(&mut out, ",\"timestamp\":");
            crate::jsonnum::push_u64(&mut out, c.timestamp);
            out.push('}');
            proof {
                assert(out@ =~= clip_prefix() + esc(c.text@) + seq!['"'] + ts_sep() + dec_u64(
                    c.timestamp as nat,
                ) + seq!['}']);
            }
        }
    }
    chars_to_string(&out)
}

/// The canonical spelling of any payload decodes back to exactly that
/// payload.
pub proof fn lemma_decode_encode(v: PayloadView)
    ensures
        spec_decode(spec_encode(v)) == Some(v),
{
    reveal_strlit("{\"type\":\"auth\",\"name\":\"");
    reveal_strlit(",\"token\":\"");
    reveal_strlit("{\"success\":");
    reveal_strlit("{\"text\":\"");
    reveal_strlit(",\"timestamp\":");
    reveal_strlit("true}");
    reveal_strlit("false}");
    let s = spec_encode(v);
    assert(s.subrange(0, s.len() as int) =~= s);
    match v {
        PayloadView::Auth { name, token } => {
            let e1 = esc(name) + seq!['"'];
            let e2 = esc(token) + seq!['"'];
            let tail = token_sep() + (e2 + seq!['}']);
            assert(s =~= auth_prefix() + (e1 + tail));
            lemma_matches_split(s, 0, auth_prefix(), e1 + tail);
            let i = auth_prefix().len() as int;
            lemma_matches_split(s, i, e1, tail);
            assert(esc(name).push('"') =~= e1);
            crate::jsontext::lemma_parse_string_complete(s, i, name);
            let j = i + esc(name).len() + 1;
            lemma_matches_split(s, j, token_sep(), e2 + seq!['}']);
            let m = j + token_sep().len();
            lemma_matches_split(s, m, e2, seq!['}']);
            assert(esc(token).push('"') =~= e2);
            crate::jsontext::lemma_parse_string_complete(s, m, token);
            let k = m + esc(token).len() + 1;
            assert(s.subrange(k, k + 1)[0] == '}');
            assert(s[k] == '}');
            assert(k + 1 == s.len());
        }
        PayloadView::AuthResult { success } => {
            let tail: Seq<char> = if success {
                "true}"@
            } else {
                "false}"@
            };
            assert(s =~= result_prefix() + tail);
            lemma_matches_split(s, 0, result_prefix(), tail);
            assert(!matches_at(s, 0, auth_prefix())) by {
                assert(auth_prefix().len() == 23);
                assert(s.len() < 23);
            }
            let i = result_prefix().len() as int;
            if success {
                assert(matches_at(s, i, "true}"@));
            } else {
                assert(!matches_at(s, i, "true}"@)) by {
                    if matches_at(s, i, "true}"@) {
                        assert(s.subrange(i, i + 5)[0] == 't');
                        assert(s.subrange(i, i + 6)[0] == 'f');
                    }
                }
            }
        }
        PayloadView::Clip(c) => {
            let e1 = esc(c.text) + seq!['"'];
            let num = dec_u64(c.timestamp as nat);
            let tail = ts_sep() + (num + seq!['}']);
            assert(s =~= clip_prefix() + (e1 + tail));
            lemma_matches_split(s, 0, clip_prefix(), e1 + tail);
            assert(!matches_at(s, 0, auth_prefix())) by {
                if matches_at(s, 0, auth_prefix()) {
                    assert(s.subrange(0, 23)[3] == 'y');
                    assert(s.subrange(0, 9)[3] == 'e');
                }
            }
            assert(!matches_at(s, 0, result_prefix())) by {
                if matches_at(s, 0, result_prefix()) {
                    assert(s.subrange(0, 11)[2] == 's');
                    assert(s.subrange(0, 9)[2] == 't');
                }
            }
            let i = clip_prefix().len() as int;
            lemma_matches_split(s, i, e1, tail);
            assert(esc(c.text).push('"') =~= e1);
            crate::jsontext::lemma_parse_string_complete(s, i, c.text);
            let j = i + esc(c.text).len() + 1;
            lemma_matches_split(s, j, ts_sep(), num + seq!['}']);
            let m = j + ts_sep().len();
            lemma_matches_split(s, m, num, seq!['}']);
            let k = m + num.len();
            assert(s.subrange(k, k + 1)[0] == '}');
            assert(s[k] == '}');
            assert(k == s.len() - 1);
            assert(!is_digit('}'));
            crate::jsonnum::lemma_parse_u64_complete(s, m, c.timestamp);
        }
    }
}

/// The soundness of the request branch.
#[verifier::rlimit(100)]
#[verifier::spinoff_prover]
proof fn lemma_encode_decode_auth(s: Seq<char>)
    requires
        matches_at(s, 0, auth_prefix()),
        spec_decode_auth(s) is Some,
    ensures
        s == spec_encode(spec_decode_auth(s)->Some_0),
{
    let v = spec_decode_auth(s)->Some_0;
    let i = auth_prefix().len() as int;
    crate::jsontext::lemma_parse_string_sound(s, i);
    let (name, j) = parse_string_body(s, i)->Some_0;
    let m = j + token_sep().len();
    crate::jsontext::lemma_parse_string_sound(s, m);
    let (token, k) = parse_string_body(s, m)->Some_0;
    let e1 = esc(name) + seq!['"'];
    let e2 = esc(token) + seq!['"'];
    assert(esc(name).push('"') =~= e1);
    assert(esc(token).push('"') =~= e2);
    assert(s.subrange(k, k + 1) =~= seq!['}']);
    assert(matches_at(s, k, seq!['}']));
    lemma_matches_split(s, m, e2, seq!['}']);
    lemma_matches_split(s, j, token_sep(), e2 + seq!['}']);
    lemma_matches_split(s, i, e1, token_sep() + (e2 + seq!['}']));
    lemma_matches_split(s, 0, auth_prefix(), e1 + (token_sep() + (e2 + seq!['}'])));
    let w = auth_prefix() + (e1 + (token_sep() + (e2 + seq!['}'])));
    assert(matches_at(s, 0, w));
    assert(w.len() == s.len());
    assert(s.subrange(0, s.len() as int) =~= s);
    assert(s == w);
    assert(spec_encode(v) =~= w);
}

/// The soundness of the answer branch.
#[verifier::rlimit(100)]
#[verifier::spinoff_prover]
proof fn lemma_encode_decode_result(s: Seq<char>)
    requires
        matches_at(s, 0, result_prefix()),
        spec_decode_result(s) is Some,
    ensures
        s == spec_encode(spec_decode_result(s)->Some_0),
{
    let i = result_prefix().len() as int;
    if matches_at(s, i, "true}"@) && s.len() == i + "true}"@.len() {
        let w = result_prefix() + "true}"@;
        lemma_matches_split(s, 0, result_prefix(), "true}"@);
        assert(matches_at(s, 0, w));
        assert(s.subrange(0, s.len() as int) =~= s);
        assert(s == w);
    } else {
        let w = result_prefix() + "false}"@;
        lemma_matches_split(s, 0, result_prefix(), "false}"@);
        assert(matches_at(s, 0, w));
        assert(s.subrange(0, s.len() as int) =~= s);
        assert(s == w);
    }
}

/// The soundness of the clip branch.
#[verifier::rlimit(100)]
#[verifier::spinoff_prover]
proof fn lemma_encode_decode_clip(s: Seq<char>)
    requires
        matches_at(s, 0, clip_prefix()),
        spec_decode_clip(s) is Some,
    ensures
        s == spec_encode(spec_decode_clip(s)->Some_0),
{
    let v = spec_decode_clip(s)->Some_0;
    let i = clip_prefix().len() as int;
    crate::jsontext::lemma_parse_string_sound(s, i);
    let (text, j) = parse_string_body(s, i)->Some_0;
    let m = j + ts_sep().len();
    crate::jsonnum::lemma_parse_u64_sound(s, m);
    let (ts, k) = parse_u64(s, m)->Some_0;
    let e1 = esc(text) + seq!['"'];
    let num = dec_u64(ts as nat);
    assert(esc(text).push('"') =~= e1);
    assert(s.subrange(k, k + 1) =~= seq!['}']);
    assert(matches_at(s, k, seq!['}']));
    lemma_matches_split(s, m, num, seq!['}']);
    lemma_matches_split(s, j, ts_sep(), num + seq!['}']);
    lemma_matches_split(s, i, e1, ts_sep() + (num + seq!['}']));
    lemma_matches_split(s, 0, clip_prefix(), e1 + (ts_sep() + (num + seq!['}'])));
    let w = clip_prefix() + (e1 + (ts_sep() + (num + seq!['}'])));
    assert(matches_at(s, 0, w));
    assert(w.len() == s.len());
    assert(s.subrange(0, s.len() as int) =~= s);
    assert(s == w);
    assert(spec_encode(v) =~= w);
}

/// Whatever decodes was the canonical spelling of its result: the decoder
/// accepts nothing but `spec_encode` images.
pub proof fn lemma_encode_decode(s: Seq<char>)
    requires
        spec_decode(s) is Some,
    ensures
        s == spec_encode(spec_decode(s)->Some_0),
{
    if matches_at(s, 0, auth_prefix()) {
        lemma_encode_decode_auth(s);
    } else if matches_at(s, 0, result_prefix()) {
        lemma_encode_decode_result(s);
    } else {
        lemma_encode_decode_clip(s);
    }
}

/// No two distinct payload values share a wire spelling.
pub proof fn lemma_encode_injective(v1: PayloadView, v2: PayloadView)
    requires
        spec_encode(v1) == spec_encode(v2),
    ensures
        v1 == v2,
{
    lemma_decode_encode(v1);
    lemma_decode_encode(v2);
}

/// Reads a payload, refining the specification decoder branch for branch.
fn decode_chars(v: &Vec<char>) -> (r: Result<Payload, CodecError>)
    ensures
        match r {
            Ok(p) => spec_decode(v@) == Some(p@),
            Err(_) => spec_decode(v@) is None,
        },
{
    let len = v.len();
    if let Some(i) = match_lit(v, 0, "{\"type\":\"auth\",\"name\":\"") {
        match crate::jsontext::scan_string(v, i) {
            Some((namec, j)) => {
                if let Some(m) = match_lit(v, j, ",\"token\":\"") {
                    match crate::jsontext::scan_string(v, m) {
                        Some((tokc, k)) => {
                            if k < len && k + 1 == len && v[k] == '}' {
                                Ok(
                                    Payload::Auth {
                                        name: chars_to_string(&namec),
                                        token: chars_to_string(&tokc),
                                    },
                                )
                            } else {
                                Err(CodecError)
                            }
                        }
                        None => Err(CodecError),
                    }
                } else {
                    Err(CodecError)
                }
            }
            None => Err(CodecError),
        }
    } else if let Some(i) = match_lit(v, 0, "{\"success\":") {
        proof {
            reveal_strlit("true}");
            reveal_strlit("false}");
        }
        if let Some(j) = match_lit(v, i, "true}") {
            if j == len {
                Ok(Payload::AuthResult { success: true })
            } else {
                proof {
                    if matches_at(v@, i as int, "false}"@) {
                        assert(v@.subrange(i as int, i + 5)[0] == 't');
                        assert(v@.subrange(i as int, i + 6)[0] == 'f');
                    }
                    assert(spec_decode(v@) is None);
                }
                Err(CodecError)
            }
        } else if let Some(j) = match_lit(v, i, "false}") {
            if j == len {
                Ok(Payload::AuthResult { success: false })
            } else {
                Err(CodecError)
            }
        } else {
            Err(CodecError)
        }
    } else if let Some(i) = match_lit(v, 0, "{\"text\":\"") {
        match crate::jsontext::scan_string(v, i) {
            Some((textc, j)) => {
                if let Some(m) = match_lit(v, j, ",\"timestamp\":") {
                    match crate::jsonnum::scan_u64(v, m) {
                        Some((ts, k)) => {
                            if k < len && k + 1 == len && v[k] == '}' {
                                Ok(Payload::Clip(Clip { text: chars_to_string(&textc), timestamp: ts }))
                            } else {
                                Err(CodecError)
                            }
                        }
                        None => Err(CodecError),
                    }
                } else {
                    Err(CodecError)
                }
            }
            None => Err(CodecError),
        }
    } else {
        Err(CodecError)
    }
}

/// Reads a payload from its wire spelling: succeeds on exactly the
/// canonical spellings that `encode_payload` writes, returning the payload
/// that was encoded, and refuses every other string.
pub fn decode_payload(s: &str) -> (r: Result<Payload, CodecError>)
    ensures
        r matches Ok(p) ==> s@ == spec_encode(p@),
        r is Err ==> forall|v: PayloadView| s@ != spec_encode(v),
{
    let v = string_to_chars(s);
    let r = decode_chars(&v);
    proof {
        if r is Ok {
            lemma_encode_decode(s@);
        } else {
            assert forall|w: PayloadView| s@ != spec_encode(w) by {
                if s@ == spec_encode(w) {
                    lemma_decode_encode(w);
                }
            }
        }
    }
    r
}

} // verus!
