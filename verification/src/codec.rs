use vstd::prelude::*;

use crate::log::{Operation, OperationLog, OperationView};

verus! {

// The log file holds one JSON object `{"operations":[...]}` whose array
// elements are objects with the string fields `from`, `to` and `timestamp`.
// Serializing and parsing that shape is this module's job; the two
// directions are proved inverse in `lemma_log_round_trip`.

/// The value of a hexadecimal digit; 16 when the character is none.
pub open spec fn hex_val(c: char) -> nat {
    if '0' <= c && c <= '9' {
        (c as u32 - '0' as u32) as nat
    } else if 'a' <= c && c <= 'f' {
        (c as u32 - 'a' as u32 + 10) as nat
    } else if 'A' <= c && c <= 'F' {
        (c as u32 - 'A' as u32 + 10) as nat
    } else {
        16
    }
}

/// The lowercase hexadecimal digit of a value below sixteen.
pub open spec fn hex_digit(d: nat) -> char {
    if d == 0 {
        '0'
    } else if d == 1 {
        '1'
    } else if d == 2 {
        '2'
    } else if d == 3 {
        '3'
    } else if d == 4 {
        '4'
    } else if d == 5 {
        '5'
    } else if d == 6 {
        '6'
    } else if d == 7 {
        '7'
    } else if d == 8 {
        '8'
    } else if d == 9 {
        '9'
    } else if d == 10 {
        'a'
    } else if d == 11 {
        'b'
    } else if d == 12 {
        'c'
    } else if d == 13 {
        'd'
    } else if d == 14 {
        'e'
    } else {
        'f'
    }
}

/// The control character with a given code below thirty-two.
pub open spec fn ctrl_char(v: nat) -> char {
    if v == 0 {
        '\u{0}'
    } else if v == 1 {
        '\u{1}'
    } else if v == 2 {
        '\u{2}'
    } else if v == 3 {
        '\u{3}'
    } else if v == 4 {
        '\u{4}'
    } else if v == 5 {
        '\u{5}'
    } else if v == 6 {
        '\u{6}'
    } else if v == 7 {
        '\u{7}'
    } else if v == 8 {
        '\u{8}'
    } else if v == 9 {
        '\u{9}'
    } else if v == 10 {
        '\u{a}'
    } else if v == 11 {
        '\u{b}'
    } else if v == 12 {
        '\u{c}'
    } else if v == 13 {
        '\u{d}'
    } else if v == 14 {
        '\u{e}'
    } else if v == 15 {
        '\u{f}'
    } else if v == 16 {
        '\u{10}'
    } else if v == 17 {
        '\u{11}'
    } else if v == 18 {
        '\u{12}'
    } else if v == 19 {
        '\u{13}'
    } else if v == 20 {
        '\u{14}'
    } else if v == 21 {
        '\u{15}'
    } else if v == 22 {
        '\u{16}'
    } else if v == 23 {
        '\u{17}'
    } else if v == 24 {
        '\u{18}'
    } else if v == 25 {
        '\u{19}'
    } else if v == 26 {
        '\u{1a}'
    } else if v == 27 {
        '\u{1b}'
    } else if v == 28 {
        '\u{1c}'
    } else if v == 29 {
        '\u{1d}'
    } else if v == 30 {
        '\u{1e}'
    } else {
        '\u{1f}'
    }
}

proof fn lemma_ctrl_char_code(v: nat)
    requires
        v < 32,
    ensures
        ctrl_char(v) as u32 == v,
{
}

/// How one character is written inside a JSON string literal: quotes and
/// backslashes get a backslash escape, control characters a `\u00XX`
/// escape, and everything else stands as itself.
pub open spec fn esc_char(c: char) -> Seq<char> {
    if c == '"' || c == '\\' {
        seq!['\\', c]
    } else if (c as u32) < 32 {
        seq!['\\', 'u', '0', '0', hex_digit((c as u32 / 16) as nat), hex_digit(
            (c as u32 % 16) as nat,
        )]
    } else {
        seq![c]
    }
}

/// How a whole string is written inside a JSON string literal.
pub open spec fn esc(s: Seq<char>) -> Seq<char>
    decreases s.len(),
{
    if s.len() == 0 {
        Seq::empty()
    } else {
        esc_char(s[0]) + esc(s.skip(1))
    }
}

pub open spec fn lit_op_head() -> Seq<char> {
    "{\"from\":\""@
}

pub open spec fn lit_to() -> Seq<char> {
    ",\"to\":\""@
}

pub open spec fn lit_ts() -> Seq<char> {
    ",\"timestamp\":\""@
}

pub open spec fn lit_hdr() -> Seq<char> {
    "{\"operations\":["@
}

/// The serialized form of one operation.
pub open spec fn ser_op(o: OperationView) -> Seq<char> {
    lit_op_head() + esc(o.from) + seq!['"'] + lit_to() + esc(o.to) + seq!['"'] + lit_ts()
        + esc(o.timestamp) + seq!['"'] + seq!['}']
}

/// The serialized forms of the operations, joined by commas.
pub open spec fn ser_ops(ops: Seq<OperationView>) -> Seq<char>
    decreases ops.len(),
{
    if ops.len() == 0 {
        Seq::empty()
    } else if ops.len() == 1 {
        ser_op(ops[0])
    } else {
        ser_op(ops[0]) + seq![','] + ser_ops(ops.skip(1))
    }
}

/// The serialized form of a whole log.
pub open spec fn ser_log(ops: Seq<OperationView>) -> Seq<char> {
    lit_hdr() + ser_ops(ops) + seq![']', '}']
}

pub open spec fn starts_with(s: Seq<char>, p: Seq<char>) -> bool {
    p.len() <= s.len() && s.subrange(0, p.len() as int) == p
}

/// Scanning a JSON string body (the opening quote already consumed):
/// the content up to the unescaped closing quote, and what follows it.
/// The escapes read are `\"`, `\\` and `\u00XX` for a control character —
/// exactly what the serializer writes; any other escape fails the parse.
pub open spec fn scan_str(s: Seq<char>) -> Option<(Seq<char>, Seq<char>)>
    decreases s.len(),
{
    if s.len() == 0 {
        None
    } else if s[0] == '"' {
        Some((Seq::empty(), s.skip(1)))
    } else if s[0] == '\\' {
        if s.len() < 2 {
            None
        } else if s[1] == '"' || s[1] == '\\' {
            match scan_str(s.skip(2)) {
                Some((c, r)) => Some((seq![s[1]] + c, r)),
                None => None,
            }
        } else if s[1] == 'u' {
            if s.len() < 6 {
                None
            } else if s[2] == '0' && s[3] == '0' && hex_val(s[4]) < 2 && hex_val(s[5]) < 16 {
                match scan_str(s.skip(6)) {
                    Some((c, r)) => Some(
                        (seq![ctrl_char(hex_val(s[4]) * 16 + hex_val(s[5]))] + c, r),
                    ),
                    None => None,
                }
            } else {
                None
            }
        } else {
            None
        }
    } else {
        match scan_str(s.skip(1)) {
            Some((c, r)) => Some((seq![s[0]] + c, r)),
            None => None,
        }
    }
}

/// A whitespace character as JSON allows it between tokens.
pub open spec fn is_ws(c: char) -> bool {
    c == ' ' || c == '\n' || c == '\t' || c == '\r'
}

/// The input with its leading whitespace dropped.
pub open spec fn skip_ws(s: Seq<char>) -> Seq<char>
    decreases s.len(),
{
    if s.len() > 0 && is_ws(s[0]) {
        skip_ws(s.skip(1))
    } else {
        s
    }
}

/// Consumes the token `p`, allowing whitespace before it.
pub open spec fn tok(s: Seq<char>, p: Seq<char>) -> Option<Seq<char>> {
    let t = skip_ws(s);
    if starts_with(t, p) {
        Some(t.skip(p.len() as int))
    } else {
        None
    }
}

/// Parsing one `<lead> "<key>" : "<content>"` field: the content and what
/// follows the closing quote. Whitespace may stand between the tokens,
/// never inside the quoted content.
pub open spec fn parse_field(s: Seq<char>, lead: Seq<char>, key: Seq<char>) -> Option<
    (Seq<char>, Seq<char>),
> {
    match tok(s, lead) {
        None => None,
        Some(s1) => match tok(s1, key) {
            None => None,
            Some(s2) => match tok(s2, ":"@) {
                None => None,
                Some(s3) => match tok(s3, "\""@) {
                    None => None,
                    Some(s4) => scan_str(s4),
                },
            },
        },
    }
}

/// Parsing one serialized operation; returns it and what follows.
pub open spec fn parse_op(s: Seq<char>) -> Option<(OperationView, Seq<char>)> {
    match parse_field(s, "{"@, "\"from\""@) {
        None => None,
        Some((from, r1)) => match parse_field(r1, ","@, "\"to\""@) {
            None => None,
            Some((to, r2)) => match parse_field(r2, ","@, "\"timestamp\""@) {
                None => None,
                Some((ts, r3)) => match tok(r3, "}"@) {
                    None => None,
                    Some(r4) => Some((OperationView { from, to, timestamp: ts }, r4)),
                },
            },
        },
    }
}

proof fn lemma_skip_ws_le(s: Seq<char>)
    ensures
        skip_ws(s).len() <= s.len(),
    decreases s.len(),
{
    if s.len() > 0 && is_ws(s[0]) {
        lemma_skip_ws_le(s.skip(1));
    }
}

proof fn lemma_tok_le(s: Seq<char>, p: Seq<char>)
    ensures
        tok(s, p) matches Some(r) ==> r.len() + p.len() <= s.len(),
{
    lemma_skip_ws_le(s);
}

proof fn lemma_scan_str_shrinks(s: Seq<char>)
    ensures
        scan_str(s) matches Some(cr) ==> cr.1.len() < s.len(),
    decreases s.len(),
{
    if s.len() == 0 {
    } else if s[0] == '"' {
    } else if s[0] == '\\' {
        if s.len() >= 2 && (s[1] == '"' || s[1] == '\\') {
            lemma_scan_str_shrinks(s.skip(2));
        } else if s.len() >= 6 && s[1] == 'u' {
            lemma_scan_str_shrinks(s.skip(6));
        }
    } else {
        lemma_scan_str_shrinks(s.skip(1));
    }
}

proof fn lemma_hex_digit_val(d: nat)
    requires
        d < 16,
    ensures
        hex_val(hex_digit(d)) == d,
{
}

proof fn lemma_parse_field_shrinks(s: Seq<char>, lead: Seq<char>, key: Seq<char>)
    ensures
        parse_field(s, lead, key) matches Some(cr) ==> cr.1.len() < s.len(),
{
    lemma_tok_le(s, lead);
    if let Some(s1) = tok(s, lead) {
        lemma_tok_le(s1, key);
        if let Some(s2) = tok(s1, key) {
            lemma_tok_le(s2, ":"@);
            if let Some(s3) = tok(s2, ":"@) {
                lemma_tok_le(s3, "\""@);
                if let Some(s4) = tok(s3, "\""@) {
                    lemma_scan_str_shrinks(s4);
                    reveal_strlit("\"");
                }
            }
        }
    }
}

proof fn lemma_parse_op_shrinks(s: Seq<char>)
    ensures
        parse_op(s) matches Some(or) ==> or.1.len() < s.len(),
{
    lemma_parse_field_shrinks(s, "{"@, "\"from\""@);
    if let Some((from, r1)) = parse_field(s, "{"@, "\"from\""@) {
        lemma_parse_field_shrinks(r1, ","@, "\"to\""@);
        if let Some((to, r2)) = parse_field(r1, ","@, "\"to\""@) {
            lemma_parse_field_shrinks(r2, ","@, "\"timestamp\""@);
            if let Some((ts, r3)) = parse_field(r2, ","@, "\"timestamp\""@) {
                lemma_tok_le(r3, "}"@);
            }
        }
    }
}

/// Parsing a non-empty comma-separated run of operations, up to and
/// including the closing bracket of the array.
pub open spec fn parse_items(s: Seq<char>) -> Option<(Seq<OperationView>, Seq<char>)>
    decreases s.len(),
    via parse_items_decreases
{
    match parse_op(s) {
        None => None,
        Some((o, r)) => {
            let t = skip_ws(r);
            if t.len() >= 1 && t[0] == ',' {
                match parse_items(t.skip(1)) {
                    Some((os, rr)) => Some((seq![o] + os, rr)),
                    None => None,
                }
            } else if t.len() >= 1 && t[0] == ']' {
                Some((seq![o], t.skip(1)))
            } else {
                None
            }
        },
    }
}

#[via_fn]
proof fn parse_items_decreases(s: Seq<char>) {
    lemma_parse_op_shrinks(s);
    if let Some((o, r)) = parse_op(s) {
        lemma_skip_ws_le(r);
    }
}

/// Parsing a whole log file. `None` means the content is not a serialized
/// log. Whitespace between tokens is not significant; the fields of an
/// operation must stand in the order written by the serializer, `from`,
/// `to`, `timestamp` — anything else falls under the lossy loading policy.
pub open spec fn spec_parse_log(s: Seq<char>) -> Option<Seq<OperationView>> {
    match tok(s, "{"@) {
        None => None,
        Some(s1) => match tok(s1, "\"operations\""@) {
            None => None,
            Some(s2) => match tok(s2, ":"@) {
                None => None,
                Some(s3) => match tok(s3, "["@) {
                    None => None,
                    Some(s4) => {
                        let t = skip_ws(s4);
                        if t.len() >= 1 && t[0] == ']' {
                            match tok(t.skip(1), "}"@) {
                                None => None,
                                Some(r) => if skip_ws(r).len() == 0 {
                                    Some(Seq::empty())
                                } else {
                                    None
                                },
                            }
                        } else {
                            match parse_items(s4) {
                                None => None,
                                Some((ops, r)) => match tok(r, "}"@) {
                                    None => None,
                                    Some(r2) => if skip_ws(r2).len() == 0 {
                                        Some(ops)
                                    } else {
                                        None
                                    },
                                },
                            }
                        }
                    },
                },
            },
        },
    }
}

// ---------------------------------------------------------------------
// Round trip: parsing a serialized log gives back exactly its operations.
// ---------------------------------------------------------------------

proof fn lemma_esc_append(a: Seq<char>, b: Seq<char>)
    ensures
        esc(a + b) == esc(a) + esc(b),
    decreases a.len(),
{
    if a.len() == 0 {
        assert(a + b =~= b);
        assert(esc(a) + esc(b) =~= esc(b));
    } else {
        lemma_esc_append(a.skip(1), b);
        assert((a + b).skip(1) =~= a.skip(1) + b);
        assert((a + b)[0] == a[0]);
        assert(esc(a + b) =~= esc_char(a[0]) + (esc(a.skip(1)) + esc(b)));
        assert(esc_char(a[0]) + (esc(a.skip(1)) + esc(b)) =~= (esc_char(a[0]) + esc(a.skip(1)))
            + esc(b));
    }
}

proof fn lemma_scan_esc(x: Seq<char>, rest: Seq<char>)
    ensures
        scan_str(esc(x) + seq!['"'] + rest) == Some((x, rest)),
    decreases x.len(),
{
    let s = esc(x) + seq!['"'] + rest;
    if x.len() == 0 {
        assert(s =~= seq!['"'] + rest);
        assert(s[0] == '"');
        assert(s.skip(1) =~= rest);
        assert(scan_str(s) == Some((Seq::<char>::empty(), rest)));
        assert(x =~= Seq::<char>::empty());
    } else {
        let c = x[0];
        let x1 = x.skip(1);
        lemma_scan_esc(x1, rest);
        assert(esc(x) == esc_char(c) + esc(x1));
        if c == '"' || c == '\\' {
            assert(s[0] == '\\');
            assert(s[1] == c);
            assert(s.len() >= 2);
            assert(s.skip(2) =~= esc(x1) + seq!['"'] + rest);
            assert(scan_str(s) == Some((seq![c] + x1, rest)));
            assert(seq![c] + x1 =~= x);
        } else if (c as u32) < 32 {
            let v = c as u32;
            lemma_hex_digit_val((v / 16) as nat);
            lemma_hex_digit_val((v % 16) as nat);
            assert(s.len() >= 6);
            assert(s[0] == '\\');
            assert(s[1] == 'u');
            assert(s[2] == '0');
            assert(s[3] == '0');
            assert(s[4] == hex_digit((v / 16) as nat));
            assert(s[5] == hex_digit((v % 16) as nat));
            assert(hex_val(s[4]) < 2);
            assert(hex_val(s[5]) < 16);
            assert(hex_val(s[4]) * 16 + hex_val(s[5]) == v as nat);
            lemma_ctrl_char_code(v as nat);
            vstd::utf8::char_u32_cast(c, v);
            vstd::utf8::char_u32_cast(ctrl_char(v as nat), v);
            assert(ctrl_char(hex_val(s[4]) * 16 + hex_val(s[5])) == c);
            assert(s.skip(6) =~= esc(x1) + seq!['"'] + rest);
            assert(scan_str(s) == Some((seq![c] + x1, rest)));
            assert(seq![c] + x1 =~= x);
        } else {
            assert(s[0] == c);
            assert(s.skip(1) =~= esc(x1) + seq!['"'] + rest);
            assert(scan_str(s) == Some((seq![c] + x1, rest)));
            assert(seq![c] + x1 =~= x);
        }
    }
}

proof fn lemma_skip_concat(a: Seq<char>, b: Seq<char>)
    ensures
        starts_with(a + b, a),
        (a + b).skip(a.len() as int) == b,
{
    assert((a + b).subrange(0, a.len() as int) =~= a);
    assert((a + b).skip(a.len() as int) =~= b);
}

proof fn lemma_tok_prefix(p: Seq<char>, r: Seq<char>)
    requires
        p.len() > 0,
        !is_ws(p[0]),
    ensures
        tok(p + r, p) == Some(r),
{
    assert((p + r)[0] == p[0]);
    assert(skip_ws(p + r) == p + r);
    lemma_skip_concat(p, r);
}

proof fn lemma_parse_field_inv(lead: Seq<char>, key: Seq<char>, content: Seq<char>, rest: Seq<char>)
    requires
        lead.len() > 0,
        !is_ws(lead[0]),
        key.len() > 0,
        !is_ws(key[0]),
    ensures
        parse_field(
            lead + key + ":"@ + "\""@ + esc(content) + seq!['"'] + rest,
            lead,
            key,
        ) == Some((content, rest)),
{
    reveal_strlit(":");
    reveal_strlit("\"");
    let s = lead + key + ":"@ + "\""@ + esc(content) + seq!['"'] + rest;
    let r1 = key + ":"@ + "\""@ + esc(content) + seq!['"'] + rest;
    assert(s =~= lead + r1);
    lemma_tok_prefix(lead, r1);
    let r2 = ":"@ + "\""@ + esc(content) + seq!['"'] + rest;
    assert(r1 =~= key + r2);
    lemma_tok_prefix(key, r2);
    let r3 = "\""@ + esc(content) + seq!['"'] + rest;
    assert(r2 =~= ":"@ + r3);
    lemma_tok_prefix(":"@, r3);
    let r4 = esc(content) + seq!['"'] + rest;
    assert(r3 =~= "\""@ + r4);
    lemma_tok_prefix("\""@, r4);
    lemma_scan_esc(content, rest);
}

#[verifier::rlimit(60)]
proof fn lemma_parse_op_inv(o: OperationView, rest: Seq<char>)
    ensures
        parse_op(ser_op(o) + rest) == Some((o, rest)),
{
    reveal_strlit("{");
    reveal_strlit(",");
    reveal_strlit("}");
    reveal_strlit(":");
    reveal_strlit("\"");
    reveal_strlit("\"from\"");
    reveal_strlit("\"to\"");
    reveal_strlit("\"timestamp\"");
    reveal_strlit("{\"from\":\"");
    reveal_strlit(",\"to\":\"");
    reveal_strlit(",\"timestamp\":\"");
    let s = ser_op(o) + rest;
    assert(lit_op_head() =~= "{"@ + "\"from\""@ + ":"@ + "\""@);
    assert(lit_to() =~= ","@ + "\"to\""@ + ":"@ + "\""@);
    assert(lit_ts() =~= ","@ + "\"timestamp\""@ + ":"@ + "\""@);
    let rest1 = lit_to() + esc(o.to) + seq!['"'] + lit_ts() + esc(o.timestamp) + seq!['"']
        + seq!['}'] + rest;
    assert(s =~= "{"@ + "\"from\""@ + ":"@ + "\""@ + esc(o.from) + seq!['"'] + rest1);
    lemma_parse_field_inv("{"@, "\"from\""@, o.from, rest1);
    let rest2 = lit_ts() + esc(o.timestamp) + seq!['"'] + seq!['}'] + rest;
    assert(rest1 =~= ","@ + "\"to\""@ + ":"@ + "\""@ + esc(o.to) + seq!['"'] + rest2);
    lemma_parse_field_inv(","@, "\"to\""@, o.to, rest2);
    let rest3 = seq!['}'] + rest;
    assert(rest2 =~= ","@ + "\"timestamp\""@ + ":"@ + "\""@ + esc(o.timestamp) + seq!['"']
        + rest3);
    lemma_parse_field_inv(","@, "\"timestamp\""@, o.timestamp, rest3);
    assert(rest3 =~= "}"@ + rest);
    lemma_tok_prefix("}"@, rest);
    assert(o =~= OperationView { from: o.from, to: o.to, timestamp: o.timestamp });
}

proof fn lemma_parse_items_inv(ops: Seq<OperationView>, rest: Seq<char>)
    requires
        ops.len() >= 1,
    ensures
        parse_items(ser_ops(ops) + seq![']'] + rest) == Some((ops, rest)),
    decreases ops.len(),
{
    let s = ser_ops(ops) + seq![']'] + rest;
    if ops.len() == 1 {
        let r = seq![']'] + rest;
        assert(s =~= ser_op(ops[0]) + r);
        lemma_parse_op_inv(ops[0], r);
        assert(r[0] == ']');
        assert(skip_ws(r) == r);
        assert(r[0] != ',');
        assert(r.skip(1) =~= rest);
        assert(seq![ops[0]] =~= ops);
    } else {
        let tail = ops.skip(1);
        let r = seq![','] + (ser_ops(tail) + seq![']'] + rest);
        assert(ser_ops(ops) == ser_op(ops[0]) + seq![','] + ser_ops(tail));
        assert(s =~= ser_op(ops[0]) + r);
        lemma_parse_op_inv(ops[0], r);
        assert(r[0] == ',');
        assert(skip_ws(r) == r);
        assert(r.skip(1) =~= ser_ops(tail) + seq![']'] + rest);
        lemma_parse_items_inv(tail, rest);
        assert(seq![ops[0]] + tail =~= ops);
    }
}

/// The law of the log format: a serialized log parses back to exactly the
/// operations it was made from, same values, same order.
pub proof fn lemma_log_round_trip(ops: Seq<OperationView>)
    ensures
        spec_parse_log(ser_log(ops)) == Some(ops),
{
    reveal_strlit("{");
    reveal_strlit("\"operations\"");
    reveal_strlit(":");
    reveal_strlit("[");
    reveal_strlit("}");
    reveal_strlit("{\"operations\":[");
    let s = ser_log(ops);
    assert(lit_hdr() =~= "{"@ + "\"operations\""@ + ":"@ + "["@);
    let s4 = ser_ops(ops) + seq![']', '}'];
    let r1 = "\"operations\""@ + ":"@ + "["@ + s4;
    assert(s =~= "{"@ + r1);
    lemma_tok_prefix("{"@, r1);
    let r2 = ":"@ + "["@ + s4;
    assert(r1 =~= "\"operations\""@ + r2);
    lemma_tok_prefix("\"operations\""@, r2);
    let r3 = "["@ + s4;
    assert(r2 =~= ":"@ + r3);
    lemma_tok_prefix(":"@, r3);
    lemma_tok_prefix("["@, s4);
    assert(r3 =~= "["@ + s4);
    if ops.len() == 0 {
        assert(s4 =~= seq![']', '}']);
        assert(s4[0] == ']');
        assert(skip_ws(s4) == s4);
        assert(s4.skip(1) =~= "}"@ + Seq::<char>::empty());
        lemma_tok_prefix("}"@, Seq::<char>::empty());
        assert(skip_ws(Seq::<char>::empty()).len() == 0);
    } else {
        reveal_strlit("{\"from\":\"");
        assert(lit_op_head().len() == 9);
        assert(lit_op_head()[0] == '{');
        assert(ser_op(ops[0])[0] == '{');
        assert(ser_ops(ops)[0] == '{');
        assert(s4[0] == '{');
        assert(skip_ws(s4) == s4);
        assert(s4[0] != ']');
        assert(s4 =~= ser_ops(ops) + seq![']'] + seq!['}']);
        lemma_parse_items_inv(ops, seq!['}']);
        assert(seq!['}'] =~= "}"@ + Seq::<char>::empty());
        lemma_tok_prefix("}"@, Seq::<char>::empty());
        assert(skip_ws(Seq::<char>::empty()).len() == 0);
    }
}

// ---------------------------------------------------------------------
// Executable serializer.
// ---------------------------------------------------------------------

fn hex_digit_str(d: u8) -> (r: &'static str)
    requires
        d < 16,
    ensures
        r@ == seq![hex_digit(d as nat)],
{
    let r: &'static str = if d == 0 {
        "0"
    } else if d == 1 {
        "1"
    } else if d == 2 {
        "2"
    } else if d == 3 {
        "3"
    } else if d == 4 {
        "4"
    } else if d == 5 {
        "5"
    } else if d == 6 {
        "6"
    } else if d == 7 {
        "7"
    } else if d == 8 {
        "8"
    } else if d == 9 {
        "9"
    } else if d == 10 {
        "a"
    } else if d == 11 {
        "b"
    } else if d == 12 {
        "c"
    } else if d == 13 {
        "d"
    } else if d == 14 {
        "e"
    } else {
        "f"
    };
    proof {
        reveal_strlit("0");
        reveal_strlit("1");
        reveal_strlit("2");
        reveal_strlit("3");
        reveal_strlit("4");
        reveal_strlit("5");
        reveal_strlit("6");
        reveal_strlit("7");
        reveal_strlit("8");
        reveal_strlit("9");
        reveal_strlit("a");
        reveal_strlit("b");
        reveal_strlit("c");
        reveal_strlit("d");
        reveal_strlit("e");
        reveal_strlit("f");
        assert(r@ =~= seq![hex_digit(d as nat)]);
    }
    r
}

/// Appends the JSON-escaped form of `s` to `out`.
fn append_escaped(out: &mut String, s: &str)
    ensures
        final(out)@ == old(out)@ + esc(s@),
{
    let ghost init = out@;
    let n = s.unicode_len();
    let mut i: usize = 0;
    proof {
        assert(s@.take(0) =~= Seq::<char>::empty());
        assert(init + esc(s@.take(0)) =~= init);
    }
    while i < n
        invariant
            n == s@.len(),
            i <= n,
            out@ == init + esc(s@.take(i as int)),
        decreases n - i,
    {
        let c = s.get_char(i);
        if c == '"' {
            out.append("\\\"");
            proof {
                reveal_strlit("\\\"");
                assert("\\\""@ =~= esc_char('"'));
            }
        } else if c == '\\' {
            out.append("\\\\");
            proof {
                reveal_strlit("\\\\");
                assert("\\\\"@ =~= esc_char('\\'));
            }
        } else if (c as u32) < 32 {
            let v = c as u32;
            out.append("\\u00");
            out.append(hex_digit_str((v / 16) as u8));
            out.append(hex_digit_str((v % 16) as u8));
            proof {
                reveal_strlit("\\u00");
                assert("\\u00"@ =~= seq!['\\', 'u', '0', '0']);
                assert("\\u00"@ + seq![hex_digit((v / 16) as nat)] + seq![hex_digit(
                    (v % 16) as nat,
                )] =~= esc_char(c));
            }
        } else {
            let piece = s.substring_char(i, i + 1);
            out.append(piece);
            proof {
                assert(piece@ =~= esc_char(c));
            }
        }
        proof {
            let cs = seq![c];
            assert(cs.skip(1) =~= Seq::<char>::empty());
            assert(esc(Seq::<char>::empty()) == Seq::<char>::empty());
            assert(esc(cs) == esc_char(cs[0]) + esc(cs.skip(1)));
            assert(esc(cs) =~= esc_char(c));
            lemma_esc_append(s@.take(i as int), cs);
            assert(s@.take(i as int) + cs =~= s@.take(i as int + 1));
            assert(out@ =~= init + esc(s@.take(i as int + 1)));
        }
        i += 1;
    }
    proof {
        assert(s@.take(n as int) =~= s@);
    }
}

fn append_op(out: &mut String, op: &Operation)
    ensures
        final(out)@ == old(out)@ + ser_op(op@),
{
    out.append("{\"from\":\"");
    append_escaped(out, op.from.as_str());
    out.append("\"");
    out.append(",\"to\":\"");
    append_escaped(out, op.to.as_str());
    out.append("\"");
    out.append(",\"timestamp\":\"");
    append_escaped(out, op.timestamp.as_str());
    out.append("\"}");
    proof {
        reveal_strlit("\"");
        reveal_strlit("\"}");
        assert("\""@ =~= seq!['"']);
        assert("\"}"@ =~= seq!['"', '}']);
        assert(out@ =~= old(out)@ + ser_op(op@));
    }
}

proof fn lemma_ser_ops_snoc(ops: Seq<OperationView>, o: OperationView)
    requires
        ops.len() >= 1,
    ensures
        ser_ops(ops.push(o)) == ser_ops(ops) + seq![','] + ser_op(o),
    decreases ops.len(),
{
    let p = ops.push(o);
    assert(p[0] == ops[0]);
    if ops.len() == 1 {
        assert(p.skip(1) =~= seq![o]);
        assert(ser_ops(seq![o]) == ser_op(o));
        assert(ser_ops(p) == ser_op(ops[0]) + seq![','] + ser_op(o));
    } else {
        lemma_ser_ops_snoc(ops.skip(1), o);
        assert(p.skip(1) =~= ops.skip(1).push(o));
        assert(ser_ops(p) == ser_op(ops[0]) + seq![','] + (ser_ops(ops.skip(1)) + seq![',']
            + ser_op(o)));
        assert(ser_op(ops[0]) + seq![','] + (ser_ops(ops.skip(1)) + seq![','] + ser_op(o)) =~= (
        ser_op(ops[0]) + seq![','] + ser_ops(ops.skip(1))) + seq![','] + ser_op(o));
    }
}

/// Serializes the whole log to its JSON text.
pub fn serialize_log(log: &OperationLog) -> (out: String)
    ensures
        out@ == ser_log(log@),
{
    let mut out = String::new();
    out.append("{\"operations\":[");
    proof {
        assert(out@ =~= lit_hdr());
    }
    let n = log.operations.len();
    let mut k: usize = 0;
    proof {
        assert(log@.take(0) =~= Seq::<OperationView>::empty());
        assert(lit_hdr() + ser_ops(log@.take(0)) =~= lit_hdr());
    }
    while k < n
        invariant
            n == log.operations.len(),
            n == log@.len(),
            k <= n,
            out@ == lit_hdr() + ser_ops(log@.take(k as int)),
        decreases n - k,
    {
        if k > 0 {
            out.append(",");
            proof {
                reveal_strlit(",");
                assert(","@ =~= seq![',']);
            }
        }
        append_op(&mut out, &log.operations[k]);
        proof {
            assert(log@[k as int] == log.operations@[k as int]@);
            let prev = log@.take(k as int);
            assert(prev.push(log@[k as int]) =~= log@.take(k as int + 1));
            if k > 0 {
                lemma_ser_ops_snoc(prev, log@[k as int]);
            } else {
                assert(log@.take(1) =~= seq![log@[0]]);
            }
            assert(out@ =~= lit_hdr() + ser_ops(log@.take(k as int + 1)));
        }
        k += 1;
    }
    out.append("]}");
    proof {
        reveal_strlit("]}");
        assert("]}"@ =~= seq![']', '}']);
        assert(log@.take(n as int) =~= log@);
        assert(out@ =~= ser_log(log@));
    }
    out
}

// ---------------------------------------------------------------------
// Executable parser.
// ---------------------------------------------------------------------

/// Consumes the literal `lit` at position `i`, if it stands there.
fn eat_lit(s: &str, i: usize, lit: &str) -> (r: Option<usize>)
    requires
        i <= s@.len(),
    ensures
        match r {
            Some(j) => starts_with(s@.skip(i as int), lit@) && j == i + lit@.len() && i <= j
                <= s@.len(),
            None => !starts_with(s@.skip(i as int), lit@),
        },
{
    let n = s.unicode_len();
    let m = lit.unicode_len();
    if n - i < m {
        return None;
    }
    let mut k: usize = 0;
    while k < m
        invariant
            i + m <= n,
            n == s@.len(),
            m == lit@.len(),
            k <= m,
            forall|j: int| 0 <= j < k ==> s@[i + j] == lit@[j],
        decreases m - k,
    {
        if s.get_char(i + k) != lit.get_char(k) {
            proof {
                if starts_with(s@.skip(i as int), lit@) {
                    assert(s@.skip(i as int).subrange(0, m as int)[k as int] == lit@[k as int]);
                    assert(s@.skip(i as int)[k as int] == s@[i + k]);
                }
            }
            return None;
        }
        k += 1;
    }
    proof {
        assert(s@.skip(i as int).subrange(0, m as int) =~= lit@);
    }
    Some(i + m)
}

fn hex_val_exec(c: char) -> (v: u8)
    ensures
        v as nat == hex_val(c),
{
    let u = c as u32;
    if '0' as u32 <= u && u <= '9' as u32 {
        (u - '0' as u32) as u8
    } else if 'a' as u32 <= u && u <= 'f' as u32 {
        (u - 'a' as u32 + 10) as u8
    } else if 'A' as u32 <= u && u <= 'F' as u32 {
        (u - 'A' as u32 + 10) as u8
    } else {
        16
    }
}

fn ctrl_str(v: u8) -> (r: &'static str)
    requires
        v < 32,
    ensures
        r@ == seq![ctrl_char(v as nat)],
{
    let r: &'static str = match v {
        0 => "\u{0}",
        1 => "\u{1}",
        2 => "\u{2}",
        3 => "\u{3}",
        4 => "\u{4}",
        5 => "\u{5}",
        6 => "\u{6}",
        7 => "\u{7}",
        8 => "\u{8}",
        9 => "\u{9}",
        10 => "\u{a}",
        11 => "\u{b}",
        12 => "\u{c}",
        13 => "\u{d}",
        14 => "\u{e}",
        15 => "\u{f}",
        16 => "\u{10}",
        17 => "\u{11}",
        18 => "\u{12}",
        19 => "\u{13}",
        20 => "\u{14}",
        21 => "\u{15}",
        22 => "\u{16}",
        23 => "\u{17}",
        24 => "\u{18}",
        25 => "\u{19}",
        26 => "\u{1a}",
        27 => "\u{1b}",
        28 => "\u{1c}",
        29 => "\u{1d}",
        30 => "\u{1e}",
        _ => "\u{1f}",
    };
    proof {
        reveal_strlit("\u{0}");
        reveal_strlit("\u{1}");
        reveal_strlit("\u{2}");
        reveal_strlit("\u{3}");
        reveal_strlit("\u{4}");
        reveal_strlit("\u{5}");
        reveal_strlit("\u{6}");
        reveal_strlit("\u{7}");
        reveal_strlit("\u{8}");
        reveal_strlit("\u{9}");
        reveal_strlit("\u{a}");
        reveal_strlit("\u{b}");
        reveal_strlit("\u{c}");
        reveal_strlit("\u{d}");
        reveal_strlit("\u{e}");
        reveal_strlit("\u{f}");
        reveal_strlit("\u{10}");
        reveal_strlit("\u{11}");
        reveal_strlit("\u{12}");
        reveal_strlit("\u{13}");
        reveal_strlit("\u{14}");
        reveal_strlit("\u{15}");
        reveal_strlit("\u{16}");
        reveal_strlit("\u{17}");
        reveal_strlit("\u{18}");
        reveal_strlit("\u{19}");
        reveal_strlit("\u{1a}");
        reveal_strlit("\u{1b}");
        reveal_strlit("\u{1c}");
        reveal_strlit("\u{1d}");
        reveal_strlit("\u{1e}");
        reveal_strlit("\u{1f}");
        assert(r@ =~= seq![ctrl_char(v as nat)]);
    }
    r
}

/// Reads a JSON string body starting at `i` (just past the opening
/// quote); returns the unescaped content and the position just past the
/// closing quote.
fn scan_string(s: &str, i: usize) -> (r: Option<(String, usize)>)
    requires
        i <= s@.len(),
    ensures
        match r {
            Some(p) => i <= p.1 <= s@.len() && scan_str(s@.skip(i as int)) == Some(
                (p.0@, s@.skip(p.1 as int)),
            ),
            None => scan_str(s@.skip(i as int)) is None,
        },
{
    let n = s.unicode_len();
    let mut out = String::new();
    let mut cur: usize = i;
    loop
        invariant
            i <= cur <= n,
            n == s@.len(),
            match scan_str(s@.skip(cur as int)) {
                Some(cr) => scan_str(s@.skip(i as int)) == Some((out@ + cr.0, cr.1)),
                None => scan_str(s@.skip(i as int)) is None,
            },
        decreases n - cur,
    {
        if cur == n {
            proof {
                assert(s@.skip(cur as int).len() == 0);
            }
            return None;
        }
        let c = s.get_char(cur);
        let ghost u = s@.skip(cur as int);
        proof {
            assert(u.len() >= 1);
            assert(u[0] == c);
        }
        if c == '"' {
            proof {
                assert(u.skip(1) =~= s@.skip(cur as int + 1));
                assert(scan_str(u) == Some((Seq::<char>::empty(), s@.skip(cur as int + 1))));
                assert(out@ + Seq::<char>::empty() =~= out@);
            }
            return Some((out, cur + 1));
        } else if c == '\\' {
            if n - cur < 2 {
                proof {
                    assert(u.len() < 2);
                }
                return None;
            }
            let c1 = s.get_char(cur + 1);
            proof {
                assert(u[1] == c1);
            }
            if c1 == '"' || c1 == '\\' {
                if c1 == '"' {
                    out.append("\"");
                    proof {
                        reveal_strlit("\"");
                        assert("\""@ =~= seq![c1]);
                    }
                } else {
                    out.append("\\");
                    proof {
                        reveal_strlit("\\");
                        assert("\\"@ =~= seq![c1]);
                    }
                }
                proof {
                    assert(u.skip(2) =~= s@.skip(cur as int + 2));
                    match scan_str(s@.skip(cur as int + 2)) {
                        Some(cr) => {
                            assert(scan_str(u) == Some((seq![c1] + cr.0, cr.1)));
                            assert((out@ + (seq![c1] + cr.0)) =~= ((out@ + seq![c1]) + cr.0));
                        },
                        None => {},
                    }
                }
                cur = cur + 2;
            } else if c1 == 'u' {
                if n - cur < 6 {
                    proof {
                        assert(u.len() < 6);
                    }
                    return None;
                }
                let c2 = s.get_char(cur + 2);
                let c3 = s.get_char(cur + 3);
                let h1 = hex_val_exec(s.get_char(cur + 4));
                let h2 = hex_val_exec(s.get_char(cur + 5));
                proof {
                    assert(u[2] == c2);
                    assert(u[3] == c3);
                    assert(u[4] == s@[cur as int + 4]);
                    assert(u[5] == s@[cur as int + 5]);
                }
                if c2 == '0' && c3 == '0' && h1 < 2 && h2 < 16 {
                    let v: u8 = h1 * 16 + h2;
                    out.append(ctrl_str(v));
                    proof {
                        assert(v as nat == hex_val(u[4]) * 16 + hex_val(u[5]));
                        assert(u.skip(6) =~= s@.skip(cur as int + 6));
                        match scan_str(s@.skip(cur as int + 6)) {
                            Some(cr) => {
                                assert(scan_str(u) == Some(
                                    (seq![ctrl_char(v as nat)] + cr.0, cr.1),
                                ));
                                assert((out@ + (seq![ctrl_char(v as nat)] + cr.0)) =~= ((out@
                                    + seq![ctrl_char(v as nat)]) + cr.0));
                            },
                            None => {},
                        }
                    }
                    cur = cur + 6;
                } else {
                    proof {
                        assert(!(u[2] == '0' && u[3] == '0' && hex_val(u[4]) < 2 && hex_val(u[5])
                            < 16));
                    }
                    return None;
                }
            } else {
                return None;
            }
        } else {
            let piece = s.substring_char(cur, cur + 1);
            out.append(piece);
            proof {
                assert(piece@ =~= seq![c]);
                assert(u.skip(1) =~= s@.skip(cur as int + 1));
                match scan_str(s@.skip(cur as int + 1)) {
                    Some(cr) => {
                        assert(scan_str(u) == Some((seq![c] + cr.0, cr.1)));
                        assert((out@ + (seq![c] + cr.0)) =~= ((out@ + seq![c]) + cr.0));
                    },
                    None => {},
                }
            }
            cur = cur + 1;
        }
    }
}

/// Position just past the whitespace that starts at `i`.
fn ws_to(s: &str, i: usize) -> (j: usize)
    requires
        i <= s@.len(),
    ensures
        i <= j <= s@.len(),
        s@.skip(j as int) == skip_ws(s@.skip(i as int)),
{
    let n = s.unicode_len();
    let mut j: usize = i;
    loop
        invariant
            i <= j <= n,
            n == s@.len(),
            skip_ws(s@.skip(i as int)) == skip_ws(s@.skip(j as int)),
        decreases n - j,
    {
        if j == n {
            proof {
                assert(s@.skip(j as int).len() == 0);
            }
            return j;
        }
        let c = s.get_char(j);
        if !(c == ' ' || c == '\n' || c == '\t' || c == '\r') {
            proof {
                assert(s@.skip(j as int)[0] == c);
                assert(skip_ws(s@.skip(j as int)) == s@.skip(j as int));
            }
            return j;
        }
        proof {
            assert(s@.skip(j as int)[0] == c);
            assert(s@.skip(j as int).skip(1) =~= s@.skip(j as int + 1));
        }
        j += 1;
    }
}

/// Consumes the token `lit` at position `i`, allowing whitespace first.
fn eat_tok(s: &str, i: usize, lit: &str) -> (r: Option<usize>)
    requires
        i <= s@.len(),
    ensures
        match r {
            Some(k) => tok(s@.skip(i as int), lit@) == Some(s@.skip(k as int)) && i <= k
                <= s@.len(),
            None => tok(s@.skip(i as int), lit@) is None,
        },
{
    let j = ws_to(s, i);
    match eat_lit(s, j, lit) {
        Some(k) => {
            proof {
                assert(s@.skip(j as int).skip(lit@.len() as int) =~= s@.skip(k as int));
            }
            Some(k)
        },
        None => None,
    }
}

/// Reads one `<lead> "<key>" : "<content>"` field starting at `i`.
fn parse_field_at(s: &str, i: usize, lead: &str, key: &str) -> (r: Option<(String, usize)>)
    requires
        i <= s@.len(),
    ensures
        match r {
            Some(p) => i <= p.1 <= s@.len() && parse_field(s@.skip(i as int), lead@, key@)
                == Some((p.0@, s@.skip(p.1 as int))),
            None => parse_field(s@.skip(i as int), lead@, key@) is None,
        },
{
    let j1 = match eat_tok(s, i, lead) {
        None => {
            return None;
        },
        Some(j) => j,
    };
    let j2 = match eat_tok(s, j1, key) {
        None => {
            return None;
        },
        Some(j) => j,
    };
    let j3 = match eat_tok(s, j2, ":") {
        None => {
            return None;
        },
        Some(j) => j,
    };
    let j4 = match eat_tok(s, j3, "\"") {
        None => {
            return None;
        },
        Some(j) => j,
    };
    scan_string(s, j4)
}

/// Reads one serialized operation starting at `i`.
fn parse_op_at(s: &str, i: usize) -> (r: Option<(Operation, usize)>)
    requires
        i <= s@.len(),
    ensures
        match r {
            Some(p) => i <= p.1 <= s@.len() && parse_op(s@.skip(i as int)) == Some(
                (p.0@, s@.skip(p.1 as int)),
            ),
            None => parse_op(s@.skip(i as int)) is None,
        },
{
    let (from_s, j1) = match parse_field_at(s, i, "{", "\"from\"") {
        None => {
            return None;
        },
        Some(p) => p,
    };
    let (to_s, j2) = match parse_field_at(s, j1, ",", "\"to\"") {
        None => {
            return None;
        },
        Some(p) => p,
    };
    let (ts_s, j3) = match parse_field_at(s, j2, ",", "\"timestamp\"") {
        None => {
            return None;
        },
        Some(p) => p,
    };
    let j4 = match eat_tok(s, j3, "}") {
        None => {
            return None;
        },
        Some(j) => j,
    };
    let op = Operation { from: from_s, to: to_s, timestamp: ts_s };
    proof {
        assert(OperationView { from: op.from@, to: op.to@, timestamp: op.timestamp@ } =~= op@);
    }
    Some((op, j4))
}

/// Parses the full text of a log file. `None` means the text is not a
/// serialized log.
pub fn parse_log(s: &str) -> (r: Option<OperationLog>)
    ensures
        r matches Some(l) ==> spec_parse_log(s@) == Some(l@),
        r is None ==> spec_parse_log(s@) is None,
{
    proof {
        assert(s@.skip(0) =~= s@);
    }
    let n = s.unicode_len();
    let h1 = match eat_tok(s, 0, "{") {
        None => {
            return None;
        },
        Some(j) => j,
    };
    let h2 = match eat_tok(s, h1, "\"operations\"") {
        None => {
            return None;
        },
        Some(j) => j,
    };
    let h3 = match eat_tok(s, h2, ":") {
        None => {
            return None;
        },
        Some(j) => j,
    };
    let h = match eat_tok(s, h3, "[") {
        None => {
            return None;
        },
        Some(j) => j,
    };
    let ghost s4 = s@.skip(h as int);
    let jb = ws_to(s, h);
    if jb < n && s.get_char(jb) == ']' {
        proof {
            assert(s@.skip(jb as int)[0] == ']');
            assert(s@.skip(jb as int).skip(1) =~= s@.skip(jb as int + 1));
        }
        match eat_tok(s, jb + 1, "}") {
            None => {
                return None;
            },
            Some(k) => {
                let jf = ws_to(s, k);
                if jf == n {
                    let log = OperationLog { operations: Vec::new() };
                    proof {
                        assert(s@.skip(jf as int).len() == 0);
                        assert(log@ =~= Seq::<OperationView>::empty());
                    }
                    return Some(log);
                } else {
                    proof {
                        assert(s@.skip(jf as int).len() > 0);
                    }
                    return None;
                }
            },
        }
    }
    proof {
        assert(skip_ws(s4) == s@.skip(jb as int));
        if skip_ws(s4).len() >= 1 {
            assert(skip_ws(s4)[0] == s@[jb as int]);
        }
    }
    let mut ops: Vec<Operation> = Vec::new();
    let mut cur: usize = h;
    proof {
        assert(ops@.map_values(|o: Operation| o@) + Seq::<OperationView>::empty()
            =~= Seq::<OperationView>::empty());
    }
    loop
        invariant
            h <= cur <= n,
            n == s@.len(),
            s4 == s@.skip(h as int),
            h <= n,
            !(skip_ws(s4).len() >= 1 && skip_ws(s4)[0] == ']'),
            spec_parse_log(s@) == (match parse_items(s4) {
                None => None,
                Some((o2, r)) => match tok(r, "}"@) {
                    None => None,
                    Some(r2) => if skip_ws(r2).len() == 0 {
                        Some(o2)
                    } else {
                        None
                    },
                },
            }),
            match parse_items(s@.skip(cur as int)) {
                Some(p) => parse_items(s4) == Some((ops@.map_values(|o: Operation| o@) + p.0, p.1)),
                None => parse_items(s4) is None,
            },
        decreases n - cur,
    {
        let ghost prev_ops = ops@.map_values(|o: Operation| o@);
        let (op, j) = match parse_op_at(s, cur) {
            None => {
                return None;
            },
            Some(p) => p,
        };
        let jc = ws_to(s, j);
        proof {
            assert(skip_ws(s@.skip(j as int)) == s@.skip(jc as int));
        }
        if jc < n && s.get_char(jc) == ',' {
            ops.push(op);
            proof {
                assert(s@.skip(jc as int)[0] == ',');
                assert(s@.skip(jc as int).skip(1) =~= s@.skip(jc as int + 1));
                assert(ops@.map_values(|o: Operation| o@) =~= prev_ops.push(op@));
                match parse_items(s@.skip(jc as int + 1)) {
                    Some(p) => {
                        assert(parse_items(s@.skip(cur as int)) == Some((seq![op@] + p.0, p.1)));
                        assert(prev_ops + (seq![op@] + p.0) =~= prev_ops.push(op@) + p.0);
                    },
                    None => {},
                }
            }
            cur = jc + 1;
        } else if jc < n && s.get_char(jc) == ']' {
            proof {
                assert(s@.skip(jc as int)[0] == ']');
                assert(s@.skip(jc as int)[0] != ',');
                assert(s@.skip(jc as int).skip(1) =~= s@.skip(jc as int + 1));
                assert(parse_items(s@.skip(cur as int)) == Some(
                    (seq![op@], s@.skip(jc as int + 1)),
                ));
            }
            ops.push(op);
            proof {
                assert(ops@.map_values(|o: Operation| o@) =~= prev_ops.push(op@));
                assert(prev_ops + seq![op@] =~= prev_ops.push(op@));
            }
            match eat_tok(s, jc + 1, "}") {
                None => {
                    return None;
                },
                Some(k) => {
                    let jf = ws_to(s, k);
                    if jf == n {
                        let log = OperationLog { operations: ops };
                        proof {
                            assert(s@.skip(jf as int).len() == 0);
                        }
                        return Some(log);
                    } else {
                        proof {
                            assert(s@.skip(jf as int).len() > 0);
                        }
                        return None;
                    }
                },
            }
        } else {
            proof {
                let rr = s@.skip(jc as int);
                if jc < n {
                    assert(rr[0] == s@[jc as int]);
                } else {
                    assert(rr.len() == 0);
                }
            }
            return None;
        }
    }
}

/// The lossy loading policy: the parsed operations when the content is a
/// serialized log, and a fresh empty log otherwise. A missing or garbled
/// log file is never an error.
pub fn log_from_json(s: &str) -> (log: OperationLog)
    ensures
        match spec_parse_log(s@) {
            Some(ops) => log@ == ops,
            None => log@ == Seq::<OperationView>::empty(),
        },
{
    match parse_log(s) {
        Some(l) => l,
        None => OperationLog::new(),
    }
}

} // verus!
