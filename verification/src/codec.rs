//! The persisted document format: a JSON object whose members map process
//! executable names (strings) to language tags (strings), and nothing else.
//! The printer and the parser are both specified at the byte level, and
//! parsing a printed document is proved to give back exactly the printed
//! entries.

use vstd::prelude::*;
use vstd::utf8::{encode_utf8, valid_utf8};

use crate::config::{fold_upsert, keys_distinct, spec_upsert, Config};
use crate::text::str_bytes;

verus! {

pub const QUOTE: u8 = 0x22;  // "
pub const BSLASH: u8 = 0x5c;  // \
pub const SLASH: u8 = 0x2f;  // /
pub const LBRACE: u8 = 0x7b;  // {
pub const RBRACE: u8 = 0x7d;  // }
pub const COLON: u8 = 0x3a;
pub const COMMA: u8 = 0x2c;
pub const LOW_U: u8 = 0x75;  // u
pub const LOW_N: u8 = 0x6e;  // n
pub const LOW_T: u8 = 0x74;  // t
pub const LOW_R: u8 = 0x72;  // r
pub const LOW_B: u8 = 0x62;  // b
pub const LOW_F: u8 = 0x66;  // f
pub const DIG_0: u8 = 0x30;  // 0

/// The lower-case hex digit for a value below sixteen.
pub open spec fn hex_digit(n: u8) -> u8 {
    if n < 10 {
        (0x30 + n) as u8
    } else {
        (0x57 + n) as u8
    }
}

/// Is `b` an ASCII hex digit?
pub open spec fn is_hex(b: u8) -> bool {
    (0x30 <= b && b <= 0x39) || (0x61 <= b && b <= 0x66) || (0x41 <= b && b <= 0x46)
}

/// The value of an ASCII hex digit.
pub open spec fn hex_val(b: u8) -> u8 {
    if 0x30 <= b && b <= 0x39 {
        (b - 0x30) as u8
    } else if 0x61 <= b && b <= 0x66 {
        (b - 0x61 + 10) as u8
    } else {
        (b - 0x41 + 10) as u8
    }
}

/// How one byte of string content is printed: quote and backslash get a
/// backslash escape, control bytes a `\u00..` escape, all else stands as is.
pub open spec fn esc_byte(b: u8) -> Seq<u8> {
    if b == QUOTE || b == BSLASH {
        seq![BSLASH, b]
    } else if b < 0x20 {
        seq![BSLASH, LOW_U, DIG_0, DIG_0, hex_digit(b / 16), hex_digit(b % 16)]
    } else {
        seq![b]
    }
}

/// The escaped form of string content.
pub open spec fn esc(s: Seq<u8>) -> Seq<u8>
    decreases s.len(),
{
    if s.len() == 0 {
        Seq::empty()
    } else {
        esc_byte(s[0]) + esc(s.skip(1))
    }
}

/// A printed JSON string: quote, escaped content, quote.
pub open spec fn print_string(s: Seq<u8>) -> Seq<u8> {
    seq![QUOTE] + esc(s) + seq![QUOTE]
}

/// A printed member: key, colon, value.
pub open spec fn print_entry(e: (Seq<u8>, Seq<u8>)) -> Seq<u8> {
    print_string(e.0) + seq![COLON] + print_string(e.1)
}

/// Printed members, comma-separated.
pub open spec fn print_entries(es: Seq<(Seq<u8>, Seq<u8>)>) -> Seq<u8>
    decreases es.len(),
{
    if es.len() == 0 {
        Seq::empty()
    } else if es.len() == 1 {
        print_entry(es[0])
    } else {
        print_entry(es[0]) + seq![COMMA] + print_entries(es.skip(1))
    }
}

/// The printed document: the members inside one pair of braces.
pub open spec fn print_doc(es: Seq<(Seq<u8>, Seq<u8>)>) -> Seq<u8> {
    seq![LBRACE] + print_entries(es) + seq![RBRACE]
}

/// Escaping distributes over appending one byte.
pub proof fn lemma_esc_snoc(s: Seq<u8>, b: u8)
    ensures
        esc(s.push(b)) == esc(s) + esc_byte(b),
    decreases s.len(),
{
    if s.len() == 0 {
        assert(s.push(b)[0] == b);
        assert(s.push(b).skip(1) =~= s);
        assert(esc(s) =~= Seq::<u8>::empty());
        assert(esc(s.push(b)) == esc_byte(s.push(b)[0]) + esc(s.push(b).skip(1)));
        assert(esc(s.push(b)) =~= esc(s) + esc_byte(b));
    } else {
        assert(s.push(b)[0] == s[0]);
        assert(s.push(b).skip(1) =~= s.skip(1).push(b));
        lemma_esc_snoc(s.skip(1), b);
        assert(esc_byte(s[0]) + (esc(s.skip(1)) + esc_byte(b)) =~= (esc_byte(s[0]) + esc(
            s.skip(1),
        )) + esc_byte(b));
    }
}

/// Printing distributes over appending one member.
pub proof fn lemma_print_entries_snoc(es: Seq<(Seq<u8>, Seq<u8>)>, e: (Seq<u8>, Seq<u8>))
    ensures
        print_entries(es.push(e)) == if es.len() == 0 {
            print_entry(e)
        } else {
            print_entries(es) + seq![COMMA] + print_entry(e)
        },
    decreases es.len(),
{
    if es.len() == 0 {
        assert(es.push(e)[0] == e);
    } else {
        assert(es.push(e)[0] == es[0]);
        assert(es.push(e).skip(1) =~= es.skip(1).push(e));
        lemma_print_entries_snoc(es.skip(1), e);
        if es.len() == 1 {
            assert(es.skip(1).len() == 0);
            assert(print_entries(es.push(e)) == print_entry(es[0]) + seq![COMMA] + print_entry(
                e,
            ));
            assert(print_entries(es) == print_entry(es[0]));
        } else {
            assert(print_entry(es[0]) + seq![COMMA] + (print_entries(es.skip(1)) + seq![COMMA]
                + print_entry(e)) =~= (print_entry(es[0]) + seq![COMMA] + print_entries(
                es.skip(1),
            )) + seq![COMMA] + print_entry(e));
        }
    }
}

fn emit_escaped_byte(out: &mut Vec<u8>, b: u8)
    ensures
        final(out)@ == old(out)@ + esc_byte(b),
{
    if b == QUOTE || b == BSLASH {
        out.push(BSLASH);
        out.push(b);
        assert(final(out)@ =~= old(out)@ + esc_byte(b));
    } else if b < 0x20 {
        out.push(BSLASH);
        out.push(LOW_U);
        out.push(DIG_0);
        out.push(DIG_0);
        let hi = b / 16;
        let lo = b % 16;
        out.push(if hi < 10 { 0x30 + hi } else { 0x57 + hi });
        out.push(if lo < 10 { 0x30 + lo } else { 0x57 + lo });
        assert(final(out)@ =~= old(out)@ + esc_byte(b));
    } else {
        out.push(b);
        assert(final(out)@ =~= old(out)@ + esc_byte(b));
    }
}

fn emit_string(out: &mut Vec<u8>, s: &str)
    ensures
        final(out)@ == old(out)@ + print_string(encode_utf8(s@)),
{
    out.push(QUOTE);
    let bs = str_bytes(s);
    let mut i: usize = 0;
    while i < bs.len()
        invariant
            i <= bs@.len(),
            bs@ == encode_utf8(s@),
            out@ == old(out)@ + seq![QUOTE] + esc(bs@.take(i as int)),
        decreases bs@.len() - i,
    {
        emit_escaped_byte(out, bs[i]);
        proof {
            assert(bs@.take(i + 1) =~= bs@.take(i as int).push(bs@[i as int]));
            lemma_esc_snoc(bs@.take(i as int), bs@[i as int]);
            assert((old(out)@ + seq![QUOTE] + esc(bs@.take(i as int))) + esc_byte(bs@[i as int])
                =~= old(out)@ + seq![QUOTE] + esc(bs@.take(i + 1)));
        }
        i = i + 1;
    }
    proof {
        assert(bs@.take(bs@.len() as int) =~= bs@);
    }
    out.push(QUOTE);
    proof {
        assert((old(out)@ + seq![QUOTE] + esc(bs@)).push(QUOTE) =~= old(out)@ + print_string(
            encode_utf8(s@),
        ));
    }
}

/// Print the configuration as the persisted JSON document.
pub fn config_to_json(cfg: &Config) -> (r: Vec<u8>)
    ensures
        r@ == print_doc(cfg.entries()),
{
    let mut out: Vec<u8> = Vec::new();
    out.push(LBRACE);
    proof {
        assert(out@ =~= seq![LBRACE] + print_entries(cfg.entries().take(0)));
    }
    let mut i: usize = 0;
    while i < cfg.0.len()
        invariant
            i <= cfg.0@.len(),
            out@ == seq![LBRACE] + print_entries(cfg.entries().take(i as int)),
        decreases cfg.0@.len() - i,
    {
        if i > 0 {
            out.push(COMMA);
        }
        emit_string(&mut out, cfg.0[i].key.as_str());
        out.push(COLON);
        emit_string(&mut out, cfg.0[i].value.as_str());
        proof {
            let es = cfg.entries();
            assert(es[i as int] == (encode_utf8(cfg.0@[i as int].key@), encode_utf8(
                cfg.0@[i as int].value@,
            )));
            assert(es.take(i + 1) =~= es.take(i as int).push(es[i as int]));
            lemma_print_entries_snoc(es.take(i as int), es[i as int]);
            if i == 0 {
                assert(out@ =~= seq![LBRACE] + print_entries(es.take(i + 1)));
            } else {
                assert(out@ =~= seq![LBRACE] + print_entries(es.take(i + 1)));
            }
        }
        i = i + 1;
    }
    proof {
        assert(cfg.entries().take(cfg.0@.len() as int) =~= cfg.entries());
    }
    out.push(RBRACE);
    proof {
        assert((seq![LBRACE] + print_entries(cfg.entries())).push(RBRACE) =~= print_doc(
            cfg.entries(),
        ));
    }
    out
}

/// JSON inter-token whitespace.
pub open spec fn is_json_ws(b: u8) -> bool {
    b == 0x20 || b == 0x09 || b == 0x0a || b == 0x0d
}

/// The input with its leading whitespace removed.
pub open spec fn skip_ws(s: Seq<u8>) -> Seq<u8>
    decreases s.len(),
{
    if s.len() > 0 && is_json_ws(s[0]) {
        skip_ws(s.skip(1))
    } else {
        s
    }
}

/// One escape sequence, read just after the backslash: the byte it stands
/// for and how many input bytes it takes. A `\u` escape is accepted only
/// for code points below `0x80`; a document using larger ones is treated as
/// corrupt (the printer never writes them).
pub open spec fn scan_escape(s: Seq<u8>) -> Option<(u8, int)> {
    if s.len() == 0 {
        None
    } else if s[0] == QUOTE || s[0] == BSLASH || s[0] == SLASH {
        Some((s[0], 1))
    } else if s[0] == LOW_N {
        Some((0x0a, 1))
    } else if s[0] == LOW_T {
        Some((0x09, 1))
    } else if s[0] == LOW_R {
        Some((0x0d, 1))
    } else if s[0] == LOW_B {
        Some((0x08, 1))
    } else if s[0] == LOW_F {
        Some((0x0c, 1))
    } else if s[0] == LOW_U {
        if s.len() >= 5 && is_hex(s[1]) && is_hex(s[2]) && is_hex(s[3]) && is_hex(s[4])
            && hex_val(s[1]) == 0 && hex_val(s[2]) == 0 && hex_val(s[3]) < 8 {
            Some(((hex_val(s[3]) * 16 + hex_val(s[4])) as u8, 5))
        } else {
            None
        }
    } else {
        None
    }
}

/// String content read just after the opening quote: the unescaped content
/// and the rest of the input after the closing quote.
pub open spec fn scan_string_body(s: Seq<u8>) -> Option<(Seq<u8>, Seq<u8>)>
    decreases s.len(),
{
    if s.len() == 0 {
        None
    } else if s[0] == QUOTE {
        Some((Seq::empty(), s.skip(1)))
    } else if s[0] == BSLASH {
        match scan_escape(s.skip(1)) {
            Some((b, n)) => match scan_string_body(s.skip(1 + n)) {
                Some((c, r)) => Some((seq![b] + c, r)),
                None => None,
            },
            None => None,
        }
    } else if s[0] < 0x20 {
        None
    } else {
        match scan_string_body(s.skip(1)) {
            Some((c, r)) => Some((seq![s[0]] + c, r)),
            None => None,
        }
    }
}

/// A successful string scan consumes at least the closing quote.
pub proof fn lemma_scan_string_rest(s: Seq<u8>)
    ensures
        scan_string_body(s).is_some() ==> scan_string_body(s).unwrap().1.len() < s.len(),
    decreases s.len(),
{
    if s.len() == 0 {
    } else if s[0] == QUOTE {
    } else if s[0] == BSLASH {
        if let Some((b, n)) = scan_escape(s.skip(1)) {
            lemma_scan_string_rest(s.skip(1 + n));
        }
    } else {
        lemma_scan_string_rest(s.skip(1));
    }
}

/// Skipping whitespace never lengthens the input.
pub proof fn lemma_skip_ws_len(s: Seq<u8>)
    ensures
        skip_ws(s).len() <= s.len(),
    decreases s.len(),
{
    if s.len() > 0 && is_json_ws(s[0]) {
        lemma_skip_ws_len(s.skip(1));
    }
}

/// Object members read at the first key's opening quote: the entries in
/// document order and the rest of the input after the closing brace.
pub open spec fn scan_members(s: Seq<u8>) -> Option<(Seq<(Seq<u8>, Seq<u8>)>, Seq<u8>)>
    decreases s.len(),
    via scan_members_decreases
{
    if s.len() == 0 || s[0] != QUOTE {
        None
    } else {
        match scan_string_body(s.skip(1)) {
            None => None,
            Some((k, r1)) => {
                let r2 = skip_ws(r1);
                if r2.len() == 0 || r2[0] != COLON {
                    None
                } else {
                    let r3 = skip_ws(r2.skip(1));
                    if r3.len() == 0 || r3[0] != QUOTE {
                        None
                    } else {
                        match scan_string_body(r3.skip(1)) {
                            None => None,
                            Some((v, r4)) => {
                                let r5 = skip_ws(r4);
                                if r5.len() == 0 {
                                    None
                                } else if r5[0] == RBRACE {
                                    Some((seq![(k, v)], r5.skip(1)))
                                } else if r5[0] == COMMA {
                                    let r6 = skip_ws(r5.skip(1));
                                    match scan_members(r6) {
                                        Some((es, r7)) => Some((seq![(k, v)] + es, r7)),
                                        None => None,
                                    }
                                } else {
                                    None
                                }
                            },
                        }
                    }
                }
            },
        }
    }
}

#[via_fn]
proof fn scan_members_decreases(s: Seq<u8>) {
    if s.len() > 0 && s[0] == QUOTE {
        lemma_scan_string_rest(s.skip(1));
        if let Some((k, r1)) = scan_string_body(s.skip(1)) {
            lemma_skip_ws_len(r1);
            let r2 = skip_ws(r1);
            if r2.len() > 0 && r2[0] == COLON {
                lemma_skip_ws_len(r2.skip(1));
                let r3 = skip_ws(r2.skip(1));
                if r3.len() > 0 && r3[0] == QUOTE {
                    lemma_scan_string_rest(r3.skip(1));
                    if let Some((v, r4)) = scan_string_body(r3.skip(1)) {
                        lemma_skip_ws_len(r4);
                        let r5 = skip_ws(r4);
                        if r5.len() > 0 && r5[0] == COMMA {
                            lemma_skip_ws_len(r5.skip(1));
                        }
                    }
                }
            }
        }
    }
}

/// The whole document: one JSON object of string members and nothing else.
pub open spec fn scan_doc(s: Seq<u8>) -> Option<Seq<(Seq<u8>, Seq<u8>)>> {
    let t = skip_ws(s);
    if t.len() == 0 || t[0] != LBRACE {
        None
    } else {
        let u = skip_ws(t.skip(1));
        if u.len() == 0 {
            None
        } else if u[0] == RBRACE {
            if skip_ws(u.skip(1)).len() == 0 {
                Some(Seq::empty())
            } else {
                None
            }
        } else {
            match scan_members(u) {
                Some((es, r)) => if skip_ws(r).len() == 0 {
                    Some(es)
                } else {
                    None
                },
                None => None,
            }
        }
    }
}

/// Every key and value is valid UTF-8, so the entries denote strings.
pub open spec fn all_entries_utf8(es: Seq<(Seq<u8>, Seq<u8>)>) -> bool {
    forall|i: int|
        0 <= i < es.len() ==> valid_utf8((#[trigger] es[i]).0) && valid_utf8(es[i].1)
}

/// Relies on `String::from_utf8`: it returns `Ok` exactly when the bytes
/// are valid UTF-8, and the string then consists of exactly those bytes.
#[verifier::external_body]
fn string_from_utf8(v: Vec<u8>) -> (r: Option<String>)
    ensures
        match r {
            Some(s) => valid_utf8(v@) && encode_utf8(s@) == v@,
            None => !valid_utf8(v@),
        },
{
    String::from_utf8(v).ok()
}

fn skip_ws_x(doc: &Vec<u8>, i: usize) -> (r: usize)
    requires
        i <= doc@.len(),
    ensures
        i <= r <= doc@.len(),
        doc@.skip(r as int) == skip_ws(doc@.skip(i as int)),
{
    let mut j = i;
    loop
        invariant_except_break
            i <= j <= doc@.len(),
            skip_ws(doc@.skip(j as int)) == skip_ws(doc@.skip(i as int)),
        ensures
            i <= j <= doc@.len(),
            doc@.skip(j as int) == skip_ws(doc@.skip(i as int)),
        decreases doc@.len() - j,
    {
        if j == doc.len() {
            proof {
                assert(doc@.skip(j as int).len() == 0);
            }
            break;
        }
        let b = doc[j];
        proof {
            assert(doc@.skip(j as int)[0] == doc@[j as int]);
        }
        if !(b == 0x20 || b == 0x09 || b == 0x0a || b == 0x0d) {
            break;
        }
        proof {
            assert(doc@.skip(j as int).skip(1) =~= doc@.skip(j as int + 1));
        }
        j = j + 1;
    }
    j
}

fn is_hex_x(b: u8) -> (r: bool)
    ensures
        r == is_hex(b),
{
    (0x30 <= b && b <= 0x39) || (0x61 <= b && b <= 0x66) || (0x41 <= b && b <= 0x46)
}

fn hex_val_x(b: u8) -> (r: u8)
    requires
        is_hex(b),
    ensures
        r == hex_val(b),
{
    if 0x30 <= b && b <= 0x39 {
        b - 0x30
    } else if 0x61 <= b && b <= 0x66 {
        b - 0x61 + 10
    } else {
        b - 0x41 + 10
    }
}

fn scan_escape_x(doc: &Vec<u8>, i: usize) -> (r: Option<(u8, usize)>)
    requires
        i <= doc@.len(),
    ensures
        match r {
            Some((b, n)) => 1 <= n <= 5 && i + n <= doc@.len() && scan_escape(
                doc@.skip(i as int),
            ) == Some((b, n as int)),
            None => scan_escape(doc@.skip(i as int)).is_none(),
        },
{
    if i == doc.len() {
        return None;
    }
    let b0 = doc[i];
    proof {
        assert(doc@.skip(i as int)[0] == doc@[i as int]);
    }
    if b0 == QUOTE || b0 == BSLASH || b0 == SLASH {
        Some((b0, 1))
    } else if b0 == LOW_N {
        Some((0x0a, 1))
    } else if b0 == LOW_T {
        Some((0x09, 1))
    } else if b0 == LOW_R {
        Some((0x0d, 1))
    } else if b0 == LOW_B {
        Some((0x08, 1))
    } else if b0 == LOW_F {
        Some((0x0c, 1))
    } else if b0 == LOW_U {
        if doc.len() - i >= 5 {
            let h1 = doc[i + 1];
            let h2 = doc[i + 2];
            let h3 = doc[i + 3];
            let h4 = doc[i + 4];
            proof {
                assert(doc@.skip(i as int)[1] == doc@[i as int + 1]);
                assert(doc@.skip(i as int)[2] == doc@[i as int + 2]);
                assert(doc@.skip(i as int)[3] == doc@[i as int + 3]);
                assert(doc@.skip(i as int)[4] == doc@[i as int + 4]);
            }
            if is_hex_x(h1) && is_hex_x(h2) && is_hex_x(h3) && is_hex_x(h4) {
                let v1 = hex_val_x(h1);
                let v2 = hex_val_x(h2);
                let v3 = hex_val_x(h3);
                let v4 = hex_val_x(h4);
                if v1 == 0 && v2 == 0 && v3 < 8 {
                    Some((v3 * 16 + v4, 5))
                } else {
                    None
                }
            } else {
                None
            }
        } else {
            None
        }
    } else {
        None
    }
}

fn scan_string_x(doc: &Vec<u8>, i: usize, out: &mut Vec<u8>) -> (r: Option<usize>)
    requires
        i <= doc@.len(),
    ensures
        match r {
            Some(j) => {
                &&& i <= j <= doc@.len()
                &&& final(out)@.len() >= old(out)@.len()
                &&& final(out)@.subrange(0, old(out)@.len() as int) == old(out)@
                &&& scan_string_body(doc@.skip(i as int)) == Some(
                    (final(out)@.skip(old(out)@.len() as int), doc@.skip(j as int)),
                )
            },
            None => scan_string_body(doc@.skip(i as int)).is_none(),
        },
    decreases doc@.len() - i,
{
    if i == doc.len() {
        proof {
            assert(doc@.skip(i as int).len() == 0);
        }
        return None;
    }
    let b0 = doc[i];
    proof {
        assert(doc@.skip(i as int)[0] == doc@[i as int]);
    }
    if b0 == QUOTE {
        proof {
            assert(doc@.skip(i as int).skip(1) =~= doc@.skip(i as int + 1));
            assert(out@.skip(out@.len() as int) =~= Seq::<u8>::empty());
            assert(out@.subrange(0, out@.len() as int) =~= out@);
        }
        return Some(i + 1);
    }
    if b0 == BSLASH {
        proof {
            assert(doc@.skip(i as int).skip(1) =~= doc@.skip(i as int + 1));
        }
        match scan_escape_x(doc, i + 1) {
            None => {
                return None;
            },
            Some((eb, n)) => {
                out.push(eb);
                let ghost mid = out@;
                proof {
                    assert(doc@.skip(i as int).skip(1 + n as int) =~= doc@.skip(
                        i as int + 1 + n as int,
                    ));
                }
                let rr = scan_string_x(doc, i + 1 + n, out);
                match rr {
                    Some(j) => {
                        proof {
                            let ol = old(out)@.len() as int;
                            assert(out@.subrange(0, mid.len() as int) == mid);
                            assert forall|k: int| 0 <= k < ol implies out@[k] == old(
                                out,
                            )@[k] by {
                                assert(out@[k] == out@.subrange(0, mid.len() as int)[k]);
                                assert(mid[k] == old(out)@[k]);
                            }
                            assert(out@.subrange(0, ol) =~= old(out)@);
                            assert(out@[ol] == out@.subrange(0, mid.len() as int)[ol]);
                            assert(out@[ol] == eb);
                            assert(out@.skip(ol) =~= seq![eb] + out@.skip(mid.len() as int));
                        }
                        return Some(j);
                    },
                    None => {
                        return None;
                    },
                }
            },
        }
    } else if b0 < 0x20 {
        return None;
    } else {
        out.push(b0);
        let ghost mid = out@;
        proof {
            assert(doc@.skip(i as int).skip(1) =~= doc@.skip(i as int + 1));
        }
        let rr = scan_string_x(doc, i + 1, out);
        match rr {
            Some(j) => {
                proof {
                    let ol = old(out)@.len() as int;
                    assert(out@.subrange(0, mid.len() as int) == mid);
                    assert forall|k: int| 0 <= k < ol implies out@[k] == old(out)@[k] by {
                        assert(out@[k] == out@.subrange(0, mid.len() as int)[k]);
                        assert(mid[k] == old(out)@[k]);
                    }
                    assert(out@.subrange(0, ol) =~= old(out)@);
                    assert(out@[ol] == out@.subrange(0, mid.len() as int)[ol]);
                    assert(out@[ol] == b0);
                    assert(out@.skip(ol) =~= seq![b0] + out@.skip(mid.len() as int));
                }
                return Some(j);
            },
            None => {
                return None;
            },
        }
    }
}

fn scan_members_x(doc: &Vec<u8>, i: usize, cfg: &mut Config) -> (r: Option<usize>)
    requires
        i <= doc@.len(),
        old(cfg).wf(),
    ensures
        match r {
            Some(j) => {
                &&& i <= j <= doc@.len()
                &&& final(cfg).wf()
                &&& match scan_members(doc@.skip(i as int)) {
                    Some((es, rest)) => rest == doc@.skip(j as int) && all_entries_utf8(es)
                        && final(cfg).entries() == fold_upsert(old(cfg).entries(), es),
                    None => false,
                }
            },
            None => match scan_members(doc@.skip(i as int)) {
                Some((es, rest)) => !all_entries_utf8(es),
                None => true,
            },
        },
    decreases doc@.len() - i,
{
    if i == doc.len() {
        return None;
    }
    let b0 = doc[i];
    proof {
        assert(doc@.skip(i as int)[0] == doc@[i as int]);
    }
    if b0 != QUOTE {
        return None;
    }
    proof {
        assert(doc@.skip(i as int).skip(1) =~= doc@.skip(i as int + 1));
    }
    let mut kb: Vec<u8> = Vec::new();
    let rk = scan_string_x(doc, i + 1, &mut kb);
    let j1 = match rk {
        Some(j1) => j1,
        None => {
            return None;
        },
    };
    proof {
        assert(kb@.skip(0) =~= kb@);
    }
    let j2 = skip_ws_x(doc, j1);
    if j2 == doc.len() {
        proof {
            assert(doc@.skip(j2 as int).len() == 0);
        }
        return None;
    }
    let c0 = doc[j2];
    proof {
        assert(doc@.skip(j2 as int)[0] == doc@[j2 as int]);
    }
    if c0 != COLON {
        return None;
    }
    proof {
        assert(doc@.skip(j2 as int).skip(1) =~= doc@.skip(j2 as int + 1));
    }
    let j3 = skip_ws_x(doc, j2 + 1);
    if j3 == doc.len() {
        proof {
            assert(doc@.skip(j3 as int).len() == 0);
        }
        return None;
    }
    let q0 = doc[j3];
    proof {
        assert(doc@.skip(j3 as int)[0] == doc@[j3 as int]);
    }
    if q0 != QUOTE {
        return None;
    }
    proof {
        assert(doc@.skip(j3 as int).skip(1) =~= doc@.skip(j3 as int + 1));
    }
    let mut vb: Vec<u8> = Vec::new();
    let rv = scan_string_x(doc, j3 + 1, &mut vb);
    let j4 = match rv {
        Some(j4) => j4,
        None => {
            return None;
        },
    };
    proof {
        assert(vb@.skip(0) =~= vb@);
    }
    let j5 = skip_ws_x(doc, j4);
    if j5 == doc.len() {
        proof {
            assert(doc@.skip(j5 as int).len() == 0);
        }
        return None;
    }
    let d0 = doc[j5];
    proof {
        assert(doc@.skip(j5 as int)[0] == doc@[j5 as int]);
    }
    if d0 != RBRACE && d0 != COMMA {
        return None;
    }
    let ghost kbs = kb@;
    let ghost vbs = vb@;
    let ks = match string_from_utf8(kb) {
        Some(ks) => ks,
        None => {
            proof {
                let e = (kbs, vbs);
                let si = doc@.skip(i as int);
                assert(doc@.skip(j5 as int).skip(1) =~= doc@.skip(j5 as int + 1));
                if scan_members(si).is_some() {
                    let es = scan_members(si).unwrap().0;
                    if d0 == RBRACE {
                        assert(seq![e][0] == e);
                        assert(es == seq![e]);
                    } else {
                        let r6 = skip_ws(doc@.skip(j5 as int + 1));
                        if scan_members(r6).is_some() {
                            let es2 = scan_members(r6).unwrap().0;
                            assert((seq![e] + es2)[0] == e);
                            assert(es == seq![e] + es2);
                        } else {
                            assert(false);
                        }
                    }
                    assert(!(valid_utf8(es[0].0) && valid_utf8(es[0].1)));
                    assert(!all_entries_utf8(es));
                }
            }
            return None;
        },
    };
    let vs = match string_from_utf8(vb) {
        Some(vs) => vs,
        None => {
            proof {
                let e = (kbs, vbs);
                let si = doc@.skip(i as int);
                assert(doc@.skip(j5 as int).skip(1) =~= doc@.skip(j5 as int + 1));
                if scan_members(si).is_some() {
                    let es = scan_members(si).unwrap().0;
                    if d0 == RBRACE {
                        assert(seq![e][0] == e);
                        assert(es == seq![e]);
                    } else {
                        let r6 = skip_ws(doc@.skip(j5 as int + 1));
                        if scan_members(r6).is_some() {
                            let es2 = scan_members(r6).unwrap().0;
                            assert((seq![e] + es2)[0] == e);
                            assert(es == seq![e] + es2);
                        } else {
                            assert(false);
                        }
                    }
                    assert(!(valid_utf8(es[0].0) && valid_utf8(es[0].1)));
                    assert(!all_entries_utf8(es));
                }
            }
            return None;
        },
    };
    cfg.insert(ks.as_str(), vs.as_str());
    if d0 == RBRACE {
        proof {
            assert(doc@.skip(j5 as int).skip(1) =~= doc@.skip(j5 as int + 1));
            let e = (kbs, vbs);
            assert(seq![e].skip(1) =~= Seq::<(Seq<u8>, Seq<u8>)>::empty());
            assert(seq![e][0] == e);
            assert(fold_upsert(old(cfg).entries(), seq![e]) == fold_upsert(
                spec_upsert(old(cfg).entries(), e.0, e.1),
                seq![e].skip(1),
            ));
            assert(fold_upsert(spec_upsert(old(cfg).entries(), e.0, e.1), seq![e].skip(1))
                == spec_upsert(old(cfg).entries(), e.0, e.1));
            assert(fold_upsert(old(cfg).entries(), seq![e]) == cfg.entries());
        }
        return Some(j5 + 1);
    }
    proof {
        assert(doc@.skip(j5 as int).skip(1) =~= doc@.skip(j5 as int + 1));
    }
    let ghost mid_entries = cfg.entries();
    let j6 = skip_ws_x(doc, j5 + 1);
    let rm = scan_members_x(doc, j6, cfg);
    match rm {
        Some(j7) => {
            proof {
                let e = (kbs, vbs);
                let sub = scan_members(doc@.skip(j6 as int)).unwrap();
                let es2 = sub.0;
                let whole = seq![e] + es2;
                assert(whole[0] == e);
                assert(whole.skip(1) =~= es2);
                assert(fold_upsert(old(cfg).entries(), whole) == fold_upsert(
                    spec_upsert(old(cfg).entries(), e.0, e.1),
                    es2,
                ));
                assert(spec_upsert(old(cfg).entries(), e.0, e.1) == mid_entries);
                assert forall|k: int| 0 <= k < whole.len() implies valid_utf8(
                    (#[trigger] whole[k]).0,
                ) && valid_utf8(whole[k].1) by {
                    if k > 0 {
                        assert(whole[k] == es2[k - 1]);
                    }
                }
            }
            Some(j7)
        },
        None => {
            proof {
                let e = (kbs, vbs);
                match scan_members(doc@.skip(j6 as int)) {
                    Some((es2, rest2)) => {
                        let whole = seq![e] + es2;
                        let bad = choose|k: int|
                            0 <= k < es2.len() && !(valid_utf8((#[trigger] es2[k]).0)
                                && valid_utf8(es2[k].1));
                        assert(whole[bad + 1] == es2[bad]);
                        assert(!all_entries_utf8(whole));
                    },
                    None => {},
                }
            }
            None
        },
    }
}

/// Parse the persisted document. The result is the configuration whose
/// entries are the document's members, inserted in document order (a later
/// duplicate key replaces an earlier one); a malformed document, or one
/// whose strings are not valid UTF-8, gives `None`.
pub fn parse_config(doc: &Vec<u8>) -> (r: Option<Config>)
    ensures
        match scan_doc(doc@) {
            Some(es) => if all_entries_utf8(es) {
                r.is_some() && r.unwrap().wf() && r.unwrap().entries() == fold_upsert(
                    Seq::empty(),
                    es,
                )
            } else {
                r.is_none()
            },
            None => r.is_none(),
        },
{
    proof {
        assert(doc@.skip(0) =~= doc@);
    }
    let t = skip_ws_x(doc, 0);
    if t == doc.len() {
        proof {
            assert(doc@.skip(t as int).len() == 0);
        }
        return None;
    }
    let b0 = doc[t];
    proof {
        assert(doc@.skip(t as int)[0] == doc@[t as int]);
    }
    if b0 != LBRACE {
        return None;
    }
    proof {
        assert(doc@.skip(t as int).skip(1) =~= doc@.skip(t as int + 1));
    }
    let u = skip_ws_x(doc, t + 1);
    if u == doc.len() {
        proof {
            assert(doc@.skip(u as int).len() == 0);
        }
        return None;
    }
    let u0 = doc[u];
    proof {
        assert(doc@.skip(u as int)[0] == doc@[u as int]);
    }
    if u0 == RBRACE {
        proof {
            assert(doc@.skip(u as int).skip(1) =~= doc@.skip(u as int + 1));
        }
        let w = skip_ws_x(doc, u + 1);
        if w == doc.len() {
            proof {
                assert(doc@.skip(w as int).len() == 0);
            }
            let ghost es = scan_doc(doc@).unwrap();
            let r = Config::default();
            proof {
                assert(r.entries() =~= Seq::<(Seq<u8>, Seq<u8>)>::empty());
                assert(fold_upsert(Seq::empty(), es) == r.entries());
            }
            return Some(r);
        } else {
            return None;
        }
    }
    let mut cfg = Config::default();
    proof {
        assert(cfg.entries() =~= Seq::<(Seq<u8>, Seq<u8>)>::empty());
    }
    let rm = scan_members_x(doc, u, &mut cfg);
    match rm {
        Some(j) => {
            let w = skip_ws_x(doc, j);
            if w == doc.len() {
                proof {
                    assert(doc@.skip(w as int).len() == 0);
                }
                Some(cfg)
            } else {
                None
            }
        },
        None => None,
    }
}

/// Interpret the bytes of the persisted document, if it could be read at
/// all: a missing (`None`) or corrupt document yields the empty
/// configuration, as the watcher and the lister expect.
pub fn load_config(doc: Option<&Vec<u8>>) -> (r: Config)
    ensures
        r.wf(),
        match doc {
            Some(d) => match scan_doc(d@) {
                Some(es) => if all_entries_utf8(es) {
                    r.entries() == fold_upsert(Seq::empty(), es)
                } else {
                    r.entries().len() == 0
                },
                None => r.entries().len() == 0,
            },
            None => r.entries().len() == 0,
        },
{
    match doc {
        Some(d) => match parse_config(d) {
            Some(c) => c,
            None => Config::default(),
        },
        None => Config::default(),
    }
}

/// Scanning an escaped string body, right after its opening quote, gives
/// back exactly the escaped content and the rest after the closing quote.
pub proof fn lemma_scan_esc(s: Seq<u8>, rest: Seq<u8>)
    ensures
        scan_string_body(esc(s) + seq![QUOTE] + rest) == Some((s, rest)),
    decreases s.len(),
{
    let w = esc(s) + seq![QUOTE] + rest;
    if s.len() == 0 {
        assert(esc(s) =~= Seq::<u8>::empty());
        assert(w =~= seq![QUOTE] + rest);
        assert(w[0] == QUOTE);
        assert(w.skip(1) =~= rest);
        assert(s =~= Seq::<u8>::empty());
    } else {
        let b = s[0];
        let t = esc(s.skip(1)) + seq![QUOTE] + rest;
        lemma_scan_esc(s.skip(1), rest);
        assert(esc(s) == esc_byte(b) + esc(s.skip(1)));
        if b == QUOTE || b == BSLASH {
            assert(w =~= seq![BSLASH, b] + t);
            assert(w[0] == BSLASH);
            assert(w.skip(1) =~= seq![b] + t);
            assert((seq![b] + t)[0] == b);
            assert(scan_escape(seq![b] + t) == Some((b, 1int)));
            assert(w.skip(1 + 1int) =~= t);
            assert(seq![b] + s.skip(1) =~= s);
        } else if b < 0x20 {
            let h1 = hex_digit(b / 16);
            let h2 = hex_digit(b % 16);
            let u = seq![LOW_U, DIG_0, DIG_0, h1, h2] + t;
            assert(w =~= seq![BSLASH] + u);
            assert(w[0] == BSLASH);
            assert(w.skip(1) =~= u);
            assert(u[0] == LOW_U);
            assert(u[1] == DIG_0 && u[2] == DIG_0 && u[3] == h1 && u[4] == h2);
            assert(b / 16 < 2 && b % 16 < 16);
            assert(is_hex(DIG_0) && hex_val(DIG_0) == 0);
            assert(is_hex(h1) && hex_val(h1) == b / 16);
            assert(is_hex(h2) && hex_val(h2) == b % 16);
            assert(b / 16 * 16 + b % 16 == b);
            assert(scan_escape(u) == Some((b, 5int)));
            assert(w.skip(1 + 5int) =~= t);
            assert(seq![b] + s.skip(1) =~= s);
        } else {
            assert(w =~= seq![b] + t);
            assert(w[0] == b);
            assert(w.skip(1) =~= t);
            assert(seq![b] + s.skip(1) =~= s);
        }
    }
}

/// A non-empty printed member list starts with a quote.
pub proof fn lemma_print_entries_first(es: Seq<(Seq<u8>, Seq<u8>)>)
    requires
        es.len() >= 1,
    ensures
        print_entries(es).len() >= 1,
        print_entries(es)[0] == QUOTE,
{
    let pe = print_entry(es[0]);
    assert(pe[0] == print_string(es[0].0)[0]);
    assert(print_string(es[0].0)[0] == QUOTE);
    if es.len() == 1 {
    } else {
        assert(print_entries(es)[0] == pe[0]);
    }
}

/// Scanning a printed member list, right at its first key, gives back
/// exactly the printed entries and the rest after the closing brace.
#[verifier::rlimit(50)]
pub proof fn lemma_scan_members_print(es: Seq<(Seq<u8>, Seq<u8>)>, rest: Seq<u8>)
    requires
        es.len() >= 1,
    ensures
        scan_members(print_entries(es) + seq![RBRACE] + rest) == Some((es, rest)),
    decreases es.len(),
{
    let w = print_entries(es) + seq![RBRACE] + rest;
    let k = es[0].0;
    let v = es[0].1;
    if es.len() == 1 {
        let a = seq![COLON] + print_string(v) + seq![RBRACE] + rest;
        assert(w =~= seq![QUOTE] + (esc(k) + seq![QUOTE] + a));
        assert(w[0] == QUOTE);
        assert(w.skip(1) =~= esc(k) + seq![QUOTE] + a);
        lemma_scan_esc(k, a);
        assert(a[0] == COLON);
        assert(skip_ws(a) == a);
        let b2 = print_string(v) + seq![RBRACE] + rest;
        assert(a.skip(1) =~= b2);
        assert(b2[0] == QUOTE);
        assert(skip_ws(b2) == b2);
        let c2 = seq![RBRACE] + rest;
        assert(b2.skip(1) =~= esc(v) + seq![QUOTE] + c2);
        lemma_scan_esc(v, c2);
        assert(c2[0] == RBRACE);
        assert(skip_ws(c2) == c2);
        assert(c2.skip(1) =~= rest);
        assert(es[0] == (k, v));
        assert(seq![(k, v)] =~= es);
    } else {
        let d = print_entries(es.skip(1)) + seq![RBRACE] + rest;
        let a = seq![COLON] + print_string(v) + seq![COMMA] + d;
        assert(print_entries(es) == print_entry(es[0]) + seq![COMMA] + print_entries(
            es.skip(1),
        ));
        assert(w =~= seq![QUOTE] + (esc(k) + seq![QUOTE] + a));
        assert(w[0] == QUOTE);
        assert(w.skip(1) =~= esc(k) + seq![QUOTE] + a);
        lemma_scan_esc(k, a);
        assert(a[0] == COLON);
        assert(skip_ws(a) == a);
        let b2 = print_string(v) + seq![COMMA] + d;
        assert(a.skip(1) =~= b2);
        assert(b2[0] == QUOTE);
        assert(skip_ws(b2) == b2);
        let c2 = seq![COMMA] + d;
        assert(b2.skip(1) =~= esc(v) + seq![QUOTE] + c2);
        lemma_scan_esc(v, c2);
        assert(c2[0] == COMMA);
        assert(skip_ws(c2) == c2);
        assert(c2.skip(1) =~= d);
        lemma_print_entries_first(es.skip(1));
        assert(d[0] == QUOTE);
        assert(!is_json_ws(QUOTE));
        assert(skip_ws(d) == d);
        lemma_scan_members_print(es.skip(1), rest);
        assert(es[0] == (k, v));
        assert(seq![(k, v)] + es.skip(1) =~= es);
    }
}

/// Scanning a printed document gives back exactly the printed entries.
pub proof fn lemma_scan_doc_print(es: Seq<(Seq<u8>, Seq<u8>)>)
    ensures
        scan_doc(print_doc(es)) == Some(es),
{
    let w = print_doc(es);
    assert(w[0] == LBRACE);
    assert(!is_json_ws(LBRACE));
    assert(skip_ws(w) == w);
    let u = print_entries(es) + seq![RBRACE];
    assert(w.skip(1) =~= u);
    if es.len() == 0 {
        assert(print_entries(es) =~= Seq::<u8>::empty());
        assert(u =~= seq![RBRACE]);
        assert(u[0] == RBRACE);
        assert(skip_ws(u) == u);
        assert(u.skip(1) =~= Seq::<u8>::empty());
        assert(skip_ws(u.skip(1)).len() == 0);
        assert(es =~= Seq::<(Seq<u8>, Seq<u8>)>::empty());
    } else {
        lemma_print_entries_first(es);
        assert(u[0] == QUOTE);
        assert(skip_ws(u) == u);
        assert(u =~= print_entries(es) + seq![RBRACE] + Seq::<u8>::empty());
        lemma_scan_members_print(es, Seq::<u8>::empty());
        assert(scan_members(u) == Some((es, Seq::<u8>::empty())));
        assert(skip_ws(Seq::<u8>::empty()).len() == 0);
        assert(u[0] != RBRACE);
    }
}

/// Print a well-formed configuration and parse the document back: the
/// result holds exactly the same entries. This is the saving/reloading
/// round trip, end to end.
pub fn print_then_parse(cfg: &Config) -> (r: Config)
    requires
        cfg.wf(),
    ensures
        r.wf(),
        r.entries() == cfg.entries(),
{
    let doc = config_to_json(cfg);
    proof {
        lemma_save_load_round_trip(*cfg);
    }
    match parse_config(&doc) {
        Some(c) => c,
        None => {
            proof {
                assert(false);
            }
            Config::default()
        },
    }
}

/// Saving then reloading round-trips the configuration: the printed
/// document scans back to exactly the same entries, every entry is valid
/// UTF-8, and re-inserting them in order rebuilds the same configuration.
pub proof fn lemma_save_load_round_trip(cfg: Config)
    requires
        cfg.wf(),
    ensures
        scan_doc(print_doc(cfg.entries())) == Some(cfg.entries()),
        all_entries_utf8(cfg.entries()),
        fold_upsert(Seq::empty(), cfg.entries()) == cfg.entries(),
{
    let es = cfg.entries();
    lemma_scan_doc_print(es);
    assert forall|i: int| 0 <= i < es.len() implies valid_utf8((#[trigger] es[i]).0)
        && valid_utf8(es[i].1) by {
        assert(es[i].0 == encode_utf8(cfg.0@[i].key@));
        assert(es[i].1 == encode_utf8(cfg.0@[i].value@));
        vstd::utf8::encode_utf8_valid_utf8(cfg.0@[i].key@);
        vstd::utf8::encode_utf8_valid_utf8(cfg.0@[i].value@);
    }
    let emp = Seq::<(Seq<u8>, Seq<u8>)>::empty();
    assert(keys_distinct(emp));
    crate::config::lemma_fold_upsert_fresh(emp, es);
    assert(emp + es =~= es);
}

} // verus!
