//! The line-framing protocol: one self-describing JSON document per line.
//!
//! Outbound, a command envelope `{"id":N,"content":{...}}` is built character
//! by character, so the text a caller's request turns into is pinned down
//! exactly by specification functions. Inbound, a response line is split into
//! its identifier and the raw text of its `content` value; the content itself
//! stays opaque, as the core never interprets payloads.

use crate::types::{BridgeRequest, BridgeResponse, RequestContent, StorageResponse, TransactionResponse};
use crate::Error;
use vstd::prelude::*;

verus! {

/// The character for one decimal digit.
pub open spec fn digit_char(d: nat) -> char {
    if d == 0 {
        '0'
    } else if d == 1 {
        '1'
    } else if d == 2 {
        '2'
    } else if d == 3 {
        '3'
    } else if d == 4 {
        '4'
    } else if d == 5 {
        '5'
    } else if d == 6 {
        '6'
    } else if d == 7 {
        '7'
    } else if d == 8 {
        '8'
    } else {
        '9'
    }
}

/// The decimal digits of `n`, most significant first, no sign and no leading
/// zeros (except for `n == 0` itself).
pub open spec fn spec_digits(n: nat) -> Seq<char>
    decreases n,
{
    if n < 10 {
        seq![digit_char(n)]
    } else {
        spec_digits(n / 10).push(digit_char(n % 10))
    }
}

/// Appends the single digit `d` to `out`.
fn push_digit(out: &mut String, d: u64)
    requires
        d < 10,
    ensures
        final(out)@ == old(out)@.push(digit_char(d as nat)),
{
    match d {
        0 => {
            proof {
                reveal_strlit("0");
            }
            out.append("0");
        },
        1 => {
            proof {
                reveal_strlit("1");
            }
            out.append("1");
        },
        2 => {
            proof {
                reveal_strlit("2");
            }
            out.append("2");
        },
        3 => {
            proof {
                reveal_strlit("3");
            }
            out.append("3");
        },
        4 => {
            proof {
                reveal_strlit("4");
            }
            out.append("4");
        },
        5 => {
            proof {
                reveal_strlit("5");
            }
            out.append("5");
        },
        6 => {
            proof {
                reveal_strlit("6");
            }
            out.append("6");
        },
        7 => {
            proof {
                reveal_strlit("7");
            }
            out.append("7");
        },
        8 => {
            proof {
                reveal_strlit("8");
            }
            out.append("8");
        },
        _ => {
            proof {
                reveal_strlit("9");
            }
            out.append("9");
        },
    }
    proof {
        assert(final(out)@ =~= old(out)@.push(digit_char(d as nat)));
    }
}

/// The numeric value of one decimal digit, or 10 for any other character.
pub open spec fn digit_val(c: char) -> nat {
    if c == '0' {
        0
    } else if c == '1' {
        1
    } else if c == '2' {
        2
    } else if c == '3' {
        3
    } else if c == '4' {
        4
    } else if c == '5' {
        5
    } else if c == '6' {
        6
    } else if c == '7' {
        7
    } else if c == '8' {
        8
    } else if c == '9' {
        9
    } else {
        10
    }
}

/// A decimal digit.
pub open spec fn is_digit(c: char) -> bool {
    digit_val(c) < 10
}

/// JSON insignificant whitespace.
pub open spec fn is_ws(c: char) -> bool {
    c == ' ' || c == '\t' || c == '\n' || c == '\r'
}

/// The first position at or after `i` holding something other than
/// whitespace, or the end of `s`.
pub open spec fn spec_skip_ws(s: Seq<char>, i: int) -> int
    decreases s.len() - i,
{
    if 0 <= i < s.len() && is_ws(s[i]) {
        spec_skip_ws(s, i + 1)
    } else {
        i
    }
}

/// The position right after the run of decimal digits starting at `i`.
pub open spec fn spec_scan_digits(s: Seq<char>, i: int) -> int
    decreases s.len() - i,
{
    if 0 <= i < s.len() && is_digit(s[i]) {
        spec_scan_digits(s, i + 1)
    } else {
        i
    }
}

/// The position right after the last character before `e` that is not
/// whitespace, or 0 if everything before `e` is whitespace.
pub open spec fn spec_rskip_ws(s: Seq<char>, e: int) -> int
    decreases e,
{
    if 0 < e <= s.len() && is_ws(s[e - 1]) {
        spec_rskip_ws(s, e - 1)
    } else {
        e
    }
}

/// The number written by a sequence of decimal digits, most significant
/// first. Empty means 0.
pub open spec fn spec_digits_val(s: Seq<char>) -> nat
    decreases s.len(),
{
    if s.len() == 0 {
        0
    } else {
        spec_digits_val(s.drop_last()) * 10 + digit_val(s.last())
    }
}

/// `lit` occurs in `s` starting at position `i`.
pub open spec fn matches_at(s: Seq<char>, i: int, lit: Seq<char>) -> bool {
    0 <= i && i + lit.len() <= s.len() && s.subrange(i, i + lit.len()) == lit
}

fn skip_ws(s: &str, i: usize, n: usize) -> (r: usize)
    requires
        i <= n,
        n == s@.len(),
    ensures
        r == spec_skip_ws(s@, i as int),
        i <= r <= n,
{
    let mut j = i;
    while j < n
        invariant
            i <= j <= n,
            n == s@.len(),
            spec_skip_ws(s@, i as int) == spec_skip_ws(s@, j as int),
        decreases n - j,
    {
        let c = s.get_char(j);
        if !(c == ' ' || c == '\t' || c == '\n' || c == '\r') {
            return j;
        }
        j += 1;
    }
    j
}

fn scan_digits(s: &str, i: usize, n: usize) -> (r: usize)
    requires
        i <= n,
        n == s@.len(),
    ensures
        r == spec_scan_digits(s@, i as int),
        i <= r <= n,
{
    let mut j = i;
    while j < n
        invariant
            i <= j <= n,
            n == s@.len(),
            spec_scan_digits(s@, i as int) == spec_scan_digits(s@, j as int),
        decreases n - j,
    {
        let c = s.get_char(j);
        if !('0' <= c && c <= '9') {
            proof {
                assert(!is_digit(s@[j as int]));
            }
            return j;
        }
        proof {
            assert(is_digit(s@[j as int]));
        }
        j += 1;
    }
    j
}

fn rskip_ws(s: &str, e: usize) -> (r: usize)
    requires
        e <= s@.len(),
    ensures
        r == spec_rskip_ws(s@, e as int),
        r <= e,
{
    let mut j = e;
    while j > 0
        invariant
            0 <= j <= e,
            e <= s@.len(),
            spec_rskip_ws(s@, e as int) == spec_rskip_ws(s@, j as int),
        decreases j,
    {
        let c = s.get_char(j - 1);
        if !(c == ' ' || c == '\t' || c == '\n' || c == '\r') {
            return j;
        }
        j -= 1;
    }
    j
}

/// Whether `lit` occurs in `s` at position `i`.
fn lit_at(s: &str, i: usize, n: usize, lit: &str) -> (r: bool)
    requires
        n == s@.len(),
        i <= n,
    ensures
        r == matches_at(s@, i as int, lit@),
{
    let m = lit.unicode_len();
    if m > n - i {
        proof {
            assert(!matches_at(s@, i as int, lit@));
        }
        return false;
    }
    let mut j: usize = 0;
    while j < m
        invariant
            0 <= j <= m,
            m == lit@.len(),
            n == s@.len(),
            i + m <= n,
            forall|k: int| 0 <= k < j ==> s@[i + k] == lit@[k],
        decreases m - j,
    {
        if s.get_char(i + j) != lit.get_char(j) {
            proof {
                assert(s@.subrange(i as int, i + lit@.len()) != lit@) by {
                    assert(s@.subrange(i as int, i + lit@.len())[j as int] != lit@[j as int]);
                }
            }
            return false;
        }
        j += 1;
    }
    proof {
        assert(s@.subrange(i as int, i + lit@.len()) =~= lit@);
    }
    true
}

/// Appends the decimal rendering of `n` to `out`.
fn push_u64(out: &mut String, n: u64)
    ensures
        final(out)@ == old(out)@ + spec_digits(n as nat),
    decreases n,
{
    if n < 10 {
        push_digit(out, n);
    } else {
        push_u64(out, n / 10);
        push_digit(out, n % 10);
    }
    proof {
        assert(final(out)@ =~= old(out)@ + spec_digits(n as nat));
    }
}

/// The character for one hexadecimal digit (lower case).
pub open spec fn hex_char(d: nat) -> char {
    if d < 10 {
        digit_char(d)
    } else if d == 10 {
        'a'
    } else if d == 11 {
        'b'
    } else if d == 12 {
        'c'
    } else if d == 13 {
        'd'
    } else if d == 14 {
        'e'
    } else {
        'f'
    }
}

/// How one character is written inside a JSON string: quote and backslash get
/// a backslash, control characters become `\u00XX`, everything else stands
/// for itself.
pub open spec fn spec_escape_char(c: char) -> Seq<char> {
    if c == '"' {
        seq!['\\', '"']
    } else if c == '\\' {
        seq!['\\', '\\']
    } else if (c as u32) < 32 {
        seq!['\\', 'u', '0', '0', hex_char((c as u32 / 16) as nat), hex_char((c as u32 % 16) as nat)]
    } else {
        seq![c]
    }
}

/// The body of a JSON string holding the characters of `s`.
pub open spec fn spec_escape(s: Seq<char>) -> Seq<char>
    decreases s.len(),
{
    if s.len() == 0 {
        Seq::empty()
    } else {
        spec_escape(s.drop_last()) + spec_escape_char(s.last())
    }
}

/// A complete JSON string literal holding the characters of `s`.
pub open spec fn spec_json_string(s: Seq<char>) -> Seq<char> {
    seq!['"'] + spec_escape(s) + seq!['"']
}

/// A signed decimal number.
pub open spec fn spec_enc_i64(n: int) -> Seq<char> {
    if n >= 0 {
        spec_digits(n as nat)
    } else {
        seq!['-'] + spec_digits((-n) as nat)
    }
}

/// The elements joined by commas.
pub open spec fn spec_join_comma(elems: Seq<Seq<char>>) -> Seq<char>
    decreases elems.len(),
{
    if elems.len() == 0 {
        Seq::empty()
    } else if elems.len() == 1 {
        elems[0]
    } else {
        spec_join_comma(elems.drop_last()) + seq![','] + elems.last()
    }
}

/// A JSON array whose elements are spliced in as given.
pub open spec fn spec_array_raw(elems: Seq<Seq<char>>) -> Seq<char> {
    seq!['['] + spec_join_comma(elems) + seq![']']
}

/// The views of a vector of strings.
pub open spec fn seq_views(v: Seq<String>) -> Seq<Seq<char>> {
    v.map_values(|s: String| s@)
}

/// Appends the single hexadecimal digit `d` to `out`.
fn push_hex(out: &mut String, d: u32)
    requires
        d < 16,
    ensures
        final(out)@ == old(out)@.push(hex_char(d as nat)),
{
    if d < 10 {
        push_digit(out, d as u64);
    } else {
        match d {
            10 => {
                proof {
                    reveal_strlit("a");
                }
                out.append("a");
            },
            11 => {
                proof {
                    reveal_strlit("b");
                }
                out.append("b");
            },
            12 => {
                proof {
                    reveal_strlit("c");
                }
                out.append("c");
            },
            13 => {
                proof {
                    reveal_strlit("d");
                }
                out.append("d");
            },
            14 => {
                proof {
                    reveal_strlit("e");
                }
                out.append("e");
            },
            _ => {
                proof {
                    reveal_strlit("f");
                }
                out.append("f");
            },
        }
        proof {
            assert(final(out)@ =~= old(out)@.push(hex_char(d as nat)));
        }
    }
}

/// Appends `s` escaped as the body of a JSON string.
fn push_escaped(out: &mut String, s: &str)
    ensures
        final(out)@ == old(out)@ + spec_escape(s@),
{
    let n = s.unicode_len();
    let mut i: usize = 0;
    while i < n
        invariant
            0 <= i <= n,
            n == s@.len(),
            out@ == old(out)@ + spec_escape(s@.take(i as int)),
        decreases n - i,
    {
        let ghost prefix = out@;
        let c = s.get_char(i);
        if c == '"' {
            proof {
                reveal_strlit("\\\"");
            }
            out.append("\\\"");
        } else if c == '\\' {
            proof {
                reveal_strlit("\\\\");
            }
            out.append("\\\\");
        } else if (c as u32) < 32 {
            proof {
                reveal_strlit("\\u00");
            }
            out.append("\\u00");
            push_hex(out, (c as u32) / 16);
            push_hex(out, (c as u32) % 16);
        } else {
            let piece = s.substring_char(i, i + 1);
            out.append(piece);
            proof {
                assert(piece@ =~= seq![s@[i as int]]);
            }
        }
        proof {
            assert(out@ =~= prefix + spec_escape_char(s@[i as int]));
            assert(s@.take(i + 1).drop_last() =~= s@.take(i as int));
            assert(s@.take(i + 1).last() == s@[i as int]);
            assert(out@ =~= old(out)@ + spec_escape(s@.take(i + 1)));
        }
        i += 1;
    }
    proof {
        assert(s@.take(n as int) =~= s@);
    }
}

/// Appends `s` as a complete JSON string literal.
fn push_json_string(out: &mut String, s: &str)
    ensures
        final(out)@ == old(out)@ + spec_json_string(s@),
{
    proof {
        reveal_strlit("\"");
    }
    out.append("\"");
    push_escaped(out, s);
    out.append("\"");
    proof {
        assert(final(out)@ =~= old(out)@ + spec_json_string(s@));
    }
}

/// Appends the signed decimal rendering of `n`.
fn push_i64(out: &mut String, n: i64)
    ensures
        final(out)@ == old(out)@ + spec_enc_i64(n as int),
{
    if n >= 0 {
        push_u64(out, n as u64);
    } else {
        proof {
            reveal_strlit("-");
        }
        out.append("-");
        let m: u64 = (-(n as i128)) as u64;
        push_u64(out, m);
        proof {
            assert(final(out)@ =~= old(out)@ + spec_enc_i64(n as int));
        }
    }
}

/// Appends a JSON array whose elements are spliced in verbatim: each element
/// must already be the text of one JSON value.
fn push_raw_array(out: &mut String, elems: &Vec<String>)
    ensures
        final(out)@ == old(out)@ + spec_array_raw(seq_views(elems@)),
{
    proof {
        reveal_strlit("[");
        reveal_strlit("]");
        reveal_strlit(",");
    }
    out.append("[");
    let n = elems.len();
    let mut i: usize = 0;
    while i < n
        invariant
            0 <= i <= n,
            n == elems@.len(),
            out@ == old(out)@ + seq!['['] + spec_join_comma(seq_views(elems@.take(i as int))),
        decreases n - i,
    {
        let ghost prefix = out@;
        if i > 0 {
            proof {
                reveal_strlit(",");
            }
            out.append(",");
        }
        push_json_value(out, &elems[i]);
        proof {
            reveal_strlit(",");
            let views1 = seq_views(elems@.take(i + 1));
            assert(views1.len() == i + 1);
            assert(views1.drop_last() =~= seq_views(elems@.take(i as int)));
            assert(views1[i as int] == elems@.take(i + 1)[i as int]@);
            assert(views1.last() == elems@[i as int]@);
            if i == 0 {
                assert(spec_join_comma(views1) == views1[0]);
                assert(out@ =~= old(out)@ + seq!['['] + spec_join_comma(views1));
            } else {
                assert(spec_join_comma(views1) == spec_join_comma(views1.drop_last()) + seq![',']
                    + views1.last());
                assert(out@ =~= old(out)@ + seq!['['] + spec_join_comma(views1));
            }
        }
        i += 1;
    }
    out.append("]");
    proof {
        assert(elems@.take(n as int) =~= elems@);
        assert(final(out)@ =~= old(out)@ + spec_array_raw(seq_views(elems@)));
    }
}

/// Appends the text of one JSON value verbatim.
fn push_json_value(out: &mut String, v: &String)
    ensures
        final(out)@ == old(out)@ + v@,
{
    out.append(v.as_str());
}

/// Appends a JSON array of string literals.
fn push_string_array(out: &mut String, elems: &Vec<String>)
    ensures
        final(out)@ == old(out)@ + spec_array_raw(
            seq_views(elems@).map_values(|e: Seq<char>| spec_json_string(e)),
        ),
{
    proof {
        reveal_strlit("[");
        reveal_strlit("]");
        reveal_strlit(",");
    }
    out.append("[");
    let n = elems.len();
    let mut i: usize = 0;
    while i < n
        invariant
            0 <= i <= n,
            n == elems@.len(),
            out@ == old(out)@ + seq!['['] + spec_join_comma(
                seq_views(elems@.take(i as int)).map_values(|e: Seq<char>| spec_json_string(e)),
            ),
        decreases n - i,
    {
        let ghost prefix = out@;
        if i > 0 {
            proof {
                reveal_strlit(",");
            }
            out.append(",");
        }
        push_json_string(out, elems[i].as_str());
        proof {
            reveal_strlit(",");
            let views1 = seq_views(elems@.take(i + 1)).map_values(
                |e: Seq<char>| spec_json_string(e),
            );
            assert(views1.len() == i + 1);
            assert(views1.drop_last() =~= seq_views(elems@.take(i as int)).map_values(
                |e: Seq<char>| spec_json_string(e),
            ));
            assert(seq_views(elems@.take(i + 1))[i as int] == elems@.take(i + 1)[i as int]@);
            assert(views1[i as int] == spec_json_string(seq_views(elems@.take(i + 1))[i as int]));
            assert(views1.last() == spec_json_string(elems@[i as int]@));
            if i == 0 {
                assert(spec_join_comma(views1) == views1[0]);
                assert(out@ =~= old(out)@ + seq!['['] + spec_join_comma(views1));
            } else {
                assert(spec_join_comma(views1) == spec_join_comma(views1.drop_last()) + seq![',']
                    + views1.last());
                assert(out@ =~= old(out)@ + seq!['['] + spec_join_comma(views1));
            }
        }
        i += 1;
    }
    out.append("]");
    proof {
        assert(elems@.take(n as int) =~= elems@);
        assert(final(out)@ =~= old(out)@ + spec_array_raw(
            seq_views(elems@).map_values(|e: Seq<char>| spec_json_string(e)),
        ));
    }
}

/// The `content` object of one command, as written on the wire: the variant's
/// name under the `kind` key, then the fields in order. String fields are
/// written as JSON strings; each Michelson payload is already the text of one
/// JSON value and is spliced in verbatim.
pub open spec fn spec_enc_content(c: RequestContent) -> Seq<char> {
    match c {
        RequestContent::listen { rpc_node, confirmation, destination } => "{\"kind\":\"listen\",\"rpc_node\":"@
            + spec_json_string(rpc_node@) + ",\"confirmation\":"@ + spec_enc_i64(
            confirmation as int,
        ) + ",\"destination\":"@ + spec_json_string(destination@) + "}"@,
        RequestContent::subscribe { rpc_node, confirmation } => "{\"kind\":\"subscribe\",\"rpc_node\":"@
            + spec_json_string(rpc_node@) + ",\"confirmation\":"@ + spec_enc_i64(
            confirmation as int,
        ) + "}"@,
        RequestContent::transaction {
            rpc_node,
            secret,
            confirmation,
            destination,
            entrypoint,
            payload,
        } => "{\"kind\":\"transaction\",\"rpc_node\":"@ + spec_json_string(rpc_node@)
            + ",\"secret\":"@ + spec_json_string(secret@) + ",\"confirmation\":"@ + spec_enc_i64(
            confirmation as int,
        ) + ",\"destination\":"@ + spec_json_string(destination@) + ",\"entrypoint\":"@
            + spec_json_string(entrypoint@) + ",\"payload\":"@ + spec_array_raw(
            seq_views(payload@),
        ) + "}"@,
        RequestContent::storage { rpc_node, confirmation, destination } => "{\"kind\":\"storage\",\"rpc_node\":"@
            + spec_json_string(rpc_node@) + ",\"confirmation\":"@ + spec_enc_i64(
            confirmation as int,
        ) + ",\"destination\":"@ + spec_json_string(destination@) + "}"@,
        RequestContent::big_map_keys { rpc_node, confirmation, destination, keys } => "{\"kind\":\"big_map_keys\",\"rpc_node\":"@
            + spec_json_string(rpc_node@) + ",\"confirmation\":"@ + spec_enc_i64(
            confirmation as int,
        ) + ",\"destination\":"@ + spec_json_string(destination@) + ",\"keys\":"@ + spec_array_raw(
            seq_views(keys@).map_values(|e: Seq<char>| spec_json_string(e)),
        ) + "}"@,
    }
}

/// One complete command line: the envelope around the content, closed by a
/// line break. This is the whole outbound wire format.
pub open spec fn spec_enc_request(req: BridgeRequest) -> Seq<char> {
    "{\"id\":"@ + spec_digits(req.id as nat) + ",\"content\":"@ + spec_enc_content(req.content)
        + "}\n"@
}

/// Appends the content object of `c`.
fn push_content(out: &mut String, c: &RequestContent)
    ensures
        final(out)@ == old(out)@ + spec_enc_content(*c),
{
    match c {
        RequestContent::listen { rpc_node, confirmation, destination } => {
            out.append("{\"kind\":\"listen\",\"rpc_node\":");
            push_json_string(out, rpc_node.as_str());
            out.append(",\"confirmation\":");
            push_i64(out, *confirmation);
            out.append(",\"destination\":");
            push_json_string(out, destination.as_str());
            out.append("}");
        },
        RequestContent::subscribe { rpc_node, confirmation } => {
            out.append("{\"kind\":\"subscribe\",\"rpc_node\":");
            push_json_string(out, rpc_node.as_str());
            out.append(",\"confirmation\":");
            push_i64(out, *confirmation);
            out.append("}");
        },
        RequestContent::transaction {
            rpc_node,
            secret,
            confirmation,
            destination,
            entrypoint,
            payload,
        } => {
            out.append("{\"kind\":\"transaction\",\"rpc_node\":");
            push_json_string(out, rpc_node.as_str());
            out.append(",\"secret\":");
            push_json_string(out, secret.as_str());
            out.append(",\"confirmation\":");
            push_i64(out, *confirmation);
            out.append(",\"destination\":");
            push_json_string(out, destination.as_str());
            out.append(",\"entrypoint\":");
            push_json_string(out, entrypoint.as_str());
            out.append(",\"payload\":");
            push_raw_array(out, payload);
            out.append("}");
        },
        RequestContent::storage { rpc_node, confirmation, destination } => {
            out.append("{\"kind\":\"storage\",\"rpc_node\":");
            push_json_string(out, rpc_node.as_str());
            out.append(",\"confirmation\":");
            push_i64(out, *confirmation);
            out.append(",\"destination\":");
            push_json_string(out, destination.as_str());
            out.append("}");
        },
        RequestContent::big_map_keys { rpc_node, confirmation, destination, keys } => {
            out.append("{\"kind\":\"big_map_keys\",\"rpc_node\":");
            push_json_string(out, rpc_node.as_str());
            out.append(",\"confirmation\":");
            push_i64(out, *confirmation);
            out.append(",\"destination\":");
            push_json_string(out, destination.as_str());
            out.append(",\"keys\":");
            push_string_array(out, keys);
            out.append("}");
        },
    }
    proof {
        assert(final(out)@ =~= old(out)@ + spec_enc_content(*c));
    }
}

/// Turns one command envelope into exactly the line the worker is sent,
/// including its terminating line break.
pub fn encode_request(req: &BridgeRequest) -> (line: String)
    ensures
        line@ == spec_enc_request(*req),
{
    let mut out = String::new();
    out.append("{\"id\":");
    push_u64(&mut out, req.id);
    out.append(",\"content\":");
    push_content(&mut out, &req.content);
    out.append("}\n");
    proof {
        assert(out@ =~= spec_enc_request(*req));
    }
    out
}

/// How one inbound line is split into the response envelope: optional
/// whitespace, `{`, the `"id"` field holding an unsigned decimal number that
/// fits a `u64`, a comma, the `"content"` field, whose raw value text runs to
/// the closing `}` of the envelope at the line's end. Any other shape is a
/// decode error (`None`). The content text itself is not interpreted.
pub open spec fn spec_decode_response(s: Seq<char>) -> Option<(u64, Seq<char>)> {
    let n = s.len() as int;
    let i0 = spec_skip_ws(s, 0);
    if !(i0 < n && s[i0] == '{') {
        None
    } else {
        let i1 = spec_skip_ws(s, i0 + 1);
        if !matches_at(s, i1, "\"id\""@) {
            None
        } else {
            let i2 = spec_skip_ws(s, i1 + 4);
            if !(i2 < n && s[i2] == ':') {
                None
            } else {
                let i3 = spec_skip_ws(s, i2 + 1);
                let i4 = spec_scan_digits(s, i3);
                if !(i4 > i3) {
                    None
                } else {
                    if spec_digits_val(s.subrange(i3, i4)) > u64::MAX {
                        None
                    } else {
                        let id = spec_digits_val(s.subrange(i3, i4)) as u64;
                        let i5 = spec_skip_ws(s, i4);
                        if !(i5 < n && s[i5] == ',') {
                            None
                        } else {
                            let i6 = spec_skip_ws(s, i5 + 1);
                            if !matches_at(s, i6, "\"content\""@) {
                                None
                            } else {
                                let i7 = spec_skip_ws(s, i6 + 9);
                                if !(i7 < n && s[i7] == ':') {
                                    None
                                } else {
                                    let cs = spec_skip_ws(s, i7 + 1);
                                    let e0 = spec_rskip_ws(s, n);
                                    if !(e0 > 0 && s[e0 - 1] == '}') {
                                        None
                                    } else {
                                        let ce = spec_rskip_ws(s, e0 - 1);
                                        if !(cs < ce) {
                                            None
                                        } else {
                                            Some((id, s.subrange(cs, ce)))
                                        }
                                    }
                                }
                            }
                        }
                    }
                }
            }
        }
    }
}

/// Every position in a digit run scanned from `i` holds a digit.
proof fn lemma_scan_digits_all(s: Seq<char>, i: int)
    requires
        0 <= i <= s.len(),
    ensures
        i <= spec_scan_digits(s, i) <= s.len(),
        forall|k: int| i <= k < spec_scan_digits(s, i) ==> is_digit(s[k]),
    decreases s.len() - i,
{
    if i < s.len() && is_digit(s[i]) {
        lemma_scan_digits_all(s, i + 1);
    }
}

/// A longer digit prefix never writes a smaller number.
proof fn lemma_digits_val_grows(s: Seq<char>, a: int, i: int, b: int)
    requires
        0 <= a <= i <= b <= s.len(),
    ensures
        spec_digits_val(s.subrange(a, b)) >= spec_digits_val(s.subrange(a, i)),
    decreases b - i,
{
    if i < b {
        lemma_digits_val_grows(s, a, i, b - 1);
        assert(s.subrange(a, b).drop_last() =~= s.subrange(a, b - 1));
        let v = spec_digits_val(s.subrange(a, b - 1));
        assert(spec_digits_val(s.subrange(a, b)) == v * 10 + digit_val(s.subrange(a, b).last()));
        assert(v * 10 >= v);
    }
}

/// The numeric value of one digit character, or 10 for any other character.
fn char_digit_val(c: char) -> (d: u64)
    ensures
        d as nat == digit_val(c),
{
    match c {
        '0' => 0,
        '1' => 1,
        '2' => 2,
        '3' => 3,
        '4' => 4,
        '5' => 5,
        '6' => 6,
        '7' => 7,
        '8' => 8,
        '9' => 9,
        _ => 10,
    }
}

/// Reads the number written by the digits `s[a..b]`, or reports that it does
/// not fit a `u64`.
fn parse_u64(s: &str, a: usize, b: usize, n: usize) -> (r: Option<u64>)
    requires
        a < b <= n,
        n == s@.len(),
        forall|k: int| a <= k < b ==> is_digit(s@[k]),
    ensures
        match r {
            Some(v) => v as nat == spec_digits_val(s@.subrange(a as int, b as int)),
            None => spec_digits_val(s@.subrange(a as int, b as int)) > u64::MAX,
        },
{
    let mut acc: u64 = 0;
    let mut i = a;
    proof {
        assert(s@.subrange(a as int, a as int) =~= Seq::<char>::empty());
    }
    while i < b
        invariant
            a <= i <= b <= n,
            n == s@.len(),
            forall|k: int| a <= k < b ==> is_digit(s@[k]),
            acc as nat == spec_digits_val(s@.subrange(a as int, i as int)),
        decreases b - i,
    {
        let c = s.get_char(i);
        let d = char_digit_val(c);
        proof {
            assert(is_digit(s@[i as int]));
            assert(d < 10);
            assert(s@.subrange(a as int, i + 1).drop_last() =~= s@.subrange(a as int, i as int));
            assert(spec_digits_val(s@.subrange(a as int, i + 1)) == (acc as nat) * 10 + (
            d as nat));
        }
        if acc > (u64::MAX - d) / 10 {
            proof {
                assert((acc as nat) * 10 + (d as nat) > u64::MAX) by (nonlinear_arith)
                    requires
                        acc > (u64::MAX - d) / 10,
                        d < 10,
                ;
                lemma_digits_val_grows(s@, a as int, i + 1, b as int);
            }
            return None;
        }
        proof {
            assert((acc as nat) * 10 + (d as nat) <= u64::MAX) by (nonlinear_arith)
                requires
                    acc <= (u64::MAX - d) / 10,
                    d < 10,
            ;
        }
        acc = acc * 10 + d;
        i += 1;
    }
    Some(acc)
}

/// Splits one line from the worker into the response envelope: the identifier
/// it answers and the raw text of its content value. Returns the decode error
/// exactly when the line does not have the envelope shape; the payload text
/// itself is passed through opaquely, never interpreted.
pub fn decode_response(line: &str) -> (r: Result<BridgeResponse, Error>)
    ensures
        spec_decode_response(line@) is Some ==> (r matches Ok(resp)
            && resp.id == spec_decode_response(line@).unwrap().0 && resp.content@
            == spec_decode_response(line@).unwrap().1),
        spec_decode_response(line@) is None ==> r == Err::<BridgeResponse, Error>(Error::Decode),
{
    let n = line.unicode_len();
    let i0 = skip_ws(line, 0, n);
    if !(i0 < n) {
        return Err(Error::Decode);
    }
    if line.get_char(i0) != '{' {
        return Err(Error::Decode);
    }
    let i1 = skip_ws(line, i0 + 1, n);
    if !lit_at(line, i1, n, "\"id\"") {
        return Err(Error::Decode);
    }
    proof {
        reveal_strlit("\"id\"");
    }
    let i2 = skip_ws(line, i1 + 4, n);
    if !(i2 < n) {
        return Err(Error::Decode);
    }
    if line.get_char(i2) != ':' {
        return Err(Error::Decode);
    }
    let i3 = skip_ws(line, i2 + 1, n);
    let i4 = scan_digits(line, i3, n);
    if !(i4 > i3) {
        return Err(Error::Decode);
    }
    proof {
        lemma_scan_digits_all(line@, i3 as int);
    }
    let id = match parse_u64(line, i3, i4, n) {
        Some(v) => v,
        None => {
            return Err(Error::Decode);
        },
    };
    let i5 = skip_ws(line, i4, n);
    if !(i5 < n) {
        return Err(Error::Decode);
    }
    if line.get_char(i5) != ',' {
        return Err(Error::Decode);
    }
    let i6 = skip_ws(line, i5 + 1, n);
    if !lit_at(line, i6, n, "\"content\"") {
        return Err(Error::Decode);
    }
    proof {
        reveal_strlit("\"content\"");
    }
    let i7 = skip_ws(line, i6 + 9, n);
    if !(i7 < n) {
        return Err(Error::Decode);
    }
    if line.get_char(i7) != ':' {
        return Err(Error::Decode);
    }
    let cs = skip_ws(line, i7 + 1, n);
    let e0 = rskip_ws(line, n);
    if !(e0 > 0) {
        return Err(Error::Decode);
    }
    if line.get_char(e0 - 1) != '}' {
        return Err(Error::Decode);
    }
    let ce = rskip_ws(line, e0 - 1);
    if !(cs < ce) {
        return Err(Error::Decode);
    }
    let content = line.substring_char(cs, ce).to_owned();
    Ok(BridgeResponse { id, content })
}

/// The decimal rendering of `n` is at least one character, all digits, and
/// reads back as `n`.
proof fn lemma_spec_digits_wf(n: nat)
    ensures
        spec_digits(n).len() >= 1,
        forall|k: int| 0 <= k < spec_digits(n).len() ==> is_digit(#[trigger] spec_digits(n)[k]),
        spec_digits_val(spec_digits(n)) == n,
    decreases n,
{
    if n < 10 {
        assert(spec_digits(n) =~= seq![digit_char(n)]);
        assert(spec_digits(n).drop_last() =~= Seq::<char>::empty());
        assert(spec_digits_val(Seq::<char>::empty()) == 0);
        assert(spec_digits(n).last() == digit_char(n));
        assert(spec_digits_val(spec_digits(n)) == 0 * 10 + digit_val(digit_char(n)));
    } else {
        lemma_spec_digits_wf(n / 10);
        assert(spec_digits(n).drop_last() =~= spec_digits(n / 10));
        assert(spec_digits(n).last() == digit_char(n % 10));
        assert(spec_digits_val(spec_digits(n)) == (n / 10) * 10 + digit_val(digit_char(n % 10)));
    }
}

/// A digit run bounded by a non-digit (or the end) is scanned exactly to its
/// boundary.
proof fn lemma_scan_digits_run(s: Seq<char>, a: int, b: int)
    requires
        0 <= a <= b <= s.len(),
        forall|k: int| a <= k < b ==> is_digit(#[trigger] s[k]),
        b == s.len() || !is_digit(s[b]),
    ensures
        spec_scan_digits(s, a) == b,
    decreases b - a,
{
    if a < b {
        lemma_scan_digits_run(s, a + 1, b);
    }
}

/// The content object of every command starts with `{`, ends with `}`, and is
/// at least two characters, so the decoder's right-to-left trim stops exactly
/// at its boundary.
proof fn lemma_content_shape(c: RequestContent)
    ensures
        spec_enc_content(c).len() >= 2,
        spec_enc_content(c)[0] == '{',
        spec_enc_content(c).last() == '}',
{
    reveal_strlit("{\"kind\":\"listen\",\"rpc_node\":");
    reveal_strlit("{\"kind\":\"subscribe\",\"rpc_node\":");
    reveal_strlit("{\"kind\":\"transaction\",\"rpc_node\":");
    reveal_strlit("{\"kind\":\"storage\",\"rpc_node\":");
    reveal_strlit("{\"kind\":\"big_map_keys\",\"rpc_node\":");
    reveal_strlit("}");
    let e = spec_enc_content(c);
    match c {
        RequestContent::listen { .. } => {
            assert(e[0] == '{');
            assert(e.last() == '}');
        },
        RequestContent::subscribe { .. } => {
            assert(e[0] == '{');
            assert(e.last() == '}');
        },
        RequestContent::transaction { .. } => {
            assert(e[0] == '{');
            assert(e.last() == '}');
        },
        RequestContent::storage { .. } => {
            assert(e[0] == '{');
            assert(e.last() == '}');
        },
        RequestContent::big_map_keys { .. } => {
            assert(e[0] == '{');
            assert(e.last() == '}');
        },
    }
}

/// Law: framing is lossless. Encoding any command and splitting the resulting
/// line back into an envelope — as a worker reading its input, or this core
/// reading an echo, would — yields exactly the identifier the command was
/// sent under and exactly the text of its content object. This holds for
/// every command, whatever its payload texts hold.
pub proof fn lemma_round_trip(req: BridgeRequest)
    ensures
        spec_decode_response(spec_enc_request(req)) == Some(
            (req.id, spec_enc_content(req.content)),
        ),
{
    reveal_strlit("{\"id\":");
    reveal_strlit(",\"content\":");
    reveal_strlit("}\n");
    reveal_strlit("\"id\"");
    reveal_strlit("\"content\"");
    let p1 = "{\"id\":"@;
    let d = spec_digits(req.id as nat);
    let p2 = ",\"content\":"@;
    let c = spec_enc_content(req.content);
    let p3 = "}\n"@;
    let line = spec_enc_request(req);
    lemma_spec_digits_wf(req.id as nat);
    lemma_content_shape(req.content);
    let dl = d.len() as int;
    let cl = c.len() as int;
    let n = line.len() as int;
    assert(p1.len() == 6);
    assert(p2.len() == 11);
    assert(p3.len() == 2);
    assert(n == 19 + dl + cl);
    assert forall|k: int| 0 <= k < 6 implies line[k] == p1[k] by {}
    assert forall|k: int| 0 <= k < dl implies line[6 + k] == d[k] by {}
    assert forall|k: int| 0 <= k < 11 implies line[6 + dl + k] == p2[k] by {}
    assert forall|k: int| 0 <= k < cl implies line[17 + dl + k] == c[k] by {}
    assert forall|k: int| 0 <= k < 2 implies line[17 + dl + cl + k] == p3[k] by {}
    // Left to right through the envelope.
    assert(line[0] == '{' && !is_ws('{'));
    assert(spec_skip_ws(line, 0) == 0);
    assert(line[1] == '"' && !is_ws('"'));
    assert(spec_skip_ws(line, 1) == 1);
    assert(matches_at(line, 1, "\"id\""@)) by {
        assert(line.subrange(1, 5) =~= "\"id\""@);
    }
    assert(line[5] == ':' && !is_ws(':'));
    assert(spec_skip_ws(line, 5) == 5);
    assert(is_digit(d[0]));
    assert(!is_ws(line[6]));
    assert(spec_skip_ws(line, 6) == 6);
    assert(line[6 + dl] == ',' && !is_digit(',') && !is_ws(','));
    assert(spec_scan_digits(line, 6) == 6 + dl) by {
        lemma_scan_digits_run(line, 6, 6 + dl);
    }
    assert(line.subrange(6, 6 + dl) =~= d);
    assert(spec_digits_val(line.subrange(6, 6 + dl)) == req.id as nat);
    assert(spec_skip_ws(line, 6 + dl) == 6 + dl);
    assert(line[7 + dl] == '"' && !is_ws('"'));
    assert(spec_skip_ws(line, 7 + dl) == 7 + dl);
    assert(matches_at(line, 7 + dl, "\"content\""@)) by {
        assert(line.subrange(7 + dl, 16 + dl) =~= "\"content\""@);
    }
    assert(line[16 + dl] == ':' && !is_ws(':'));
    assert(spec_skip_ws(line, 16 + dl) == 16 + dl);
    assert(line[17 + dl] == c[0] && c[0] == '{');
    assert(spec_skip_ws(line, 17 + dl) == 17 + dl);
    // Right to left: the final line break is trimmed, the envelope's closing
    // brace found, and the trim before it stops on the content's own brace.
    assert(line[n - 1] == '\n' && is_ws('\n'));
    assert(line[n - 2] == '}' && !is_ws('}'));
    assert(spec_rskip_ws(line, n) == spec_rskip_ws(line, n - 1));
    assert(spec_rskip_ws(line, n - 1) == n - 1);
    assert(line[n - 3] == c.last() && c.last() == '}');
    assert(spec_rskip_ws(line, n - 2) == n - 2);
    assert(17 + dl < n - 2);
    assert(line.subrange(17 + dl, n - 2) =~= c);
    assert(spec_decode_response(line) == Some((req.id, c)));
}

/// The position of the first quote or backslash at or after `i`, or the end
/// of `s`. Within a JSON string, this is where its plain (escape-free) prefix
/// ends.
pub open spec fn spec_scan_to_quote(s: Seq<char>, i: int) -> int
    decreases s.len() - i,
{
    if 0 <= i < s.len() && s[i] != '"' && s[i] != '\\' {
        spec_scan_to_quote(s, i + 1)
    } else {
        i
    }
}

fn scan_to_quote(s: &str, i: usize, n: usize) -> (r: usize)
    requires
        i <= n,
        n == s@.len(),
    ensures
        r == spec_scan_to_quote(s@, i as int),
        i <= r <= n,
{
    let mut j = i;
    while j < n
        invariant
            i <= j <= n,
            n == s@.len(),
            spec_scan_to_quote(s@, i as int) == spec_scan_to_quote(s@, j as int),
        decreases n - j,
    {
        let c = s.get_char(j);
        if c == '"' || c == '\\' {
            return j;
        }
        j += 1;
    }
    j
}

/// How a status-tagged payload opens: `{"status":"TAG",` with any JSON
/// whitespace between tokens. Yields the tag and the position right after the
/// comma. The tag must be free of escapes, which every status word is.
pub open spec fn spec_split_status(s: Seq<char>) -> Option<(Seq<char>, int)> {
    let n = s.len() as int;
    let i0 = spec_skip_ws(s, 0);
    if !(i0 < n && s[i0] == '{') {
        None
    } else {
        let i1 = spec_skip_ws(s, i0 + 1);
        if !matches_at(s, i1, "\"status\""@) {
            None
        } else {
            let i2 = spec_skip_ws(s, i1 + 8);
            if !(i2 < n && s[i2] == ':') {
                None
            } else {
                let i3 = spec_skip_ws(s, i2 + 1);
                if !(i3 < n && s[i3] == '"') {
                    None
                } else {
                    let ts = i3 + 1;
                    let te = spec_scan_to_quote(s, ts);
                    if !(te < n && s[te] == '"') {
                        None
                    } else {
                        let i4 = spec_skip_ws(s, te + 1);
                        if !(i4 < n && s[i4] == ',') {
                            None
                        } else {
                            Some((s.subrange(ts, te), i4 + 1))
                        }
                    }
                }
            }
        }
    }
}

/// A closing field holding one raw JSON value: `NAME: VALUE }` at the end of
/// the payload, the value running to the payload's final `}`. The value text
/// is yielded uninterpreted.
pub open spec fn spec_raw_field(s: Seq<char>, from: int, name: Seq<char>) -> Option<Seq<char>> {
    let n = s.len() as int;
    let j0 = spec_skip_ws(s, from);
    if !matches_at(s, j0, name) {
        None
    } else {
        let j1 = spec_skip_ws(s, j0 + name.len());
        if !(j1 < n && s[j1] == ':') {
            None
        } else {
            let vs = spec_skip_ws(s, j1 + 1);
            let e0 = spec_rskip_ws(s, n);
            if !(e0 > 0 && s[e0 - 1] == '}') {
                None
            } else {
                let ve = spec_rskip_ws(s, e0 - 1);
                if !(vs < ve) {
                    None
                } else {
                    Some(s.subrange(vs, ve))
                }
            }
        }
    }
}

/// A closing field holding one escape-free JSON string: `NAME: "VALUE" }`
/// closing the payload. A string value with escapes in it is refused rather
/// than misread.
pub open spec fn spec_string_field(s: Seq<char>, from: int, name: Seq<char>) -> Option<Seq<char>> {
    let n = s.len() as int;
    let j0 = spec_skip_ws(s, from);
    if !matches_at(s, j0, name) {
        None
    } else {
        let j1 = spec_skip_ws(s, j0 + name.len());
        if !(j1 < n && s[j1] == ':') {
            None
        } else {
            let j2 = spec_skip_ws(s, j1 + 1);
            if !(j2 < n && s[j2] == '"') {
                None
            } else {
                let vs = j2 + 1;
                let ve = spec_scan_to_quote(s, vs);
                if !(ve < n && s[ve] == '"') {
                    None
                } else {
                    let j3 = spec_skip_ws(s, ve + 1);
                    if !(j3 < n && s[j3] == '}') {
                        None
                    } else {
                        let j4 = spec_skip_ws(s, j3 + 1);
                        if !(j4 == n) {
                            None
                        } else {
                            Some(s.subrange(vs, ve))
                        }
                    }
                }
            }
        }
    }
}

/// The tag and value text of a transaction outcome: one of the five hash
/// statuses with its hash string, or the error status with its raw error
/// value. Any other shape or tag is a decode error.
pub open spec fn spec_decode_transaction(s: Seq<char>) -> Option<(Seq<char>, Seq<char>)> {
    match spec_split_status(s) {
        Option::None => None,
        Option::Some((tag, from)) => {
            if tag == "applied"@ || tag == "failed"@ || tag == "skipped"@ || tag == "backtracked"@
                || tag == "unknown"@ {
                match spec_string_field(s, from, "\"hash\""@) {
                    Option::Some(v) => Some((tag, v)),
                    Option::None => None,
                }
            } else if tag == "error"@ {
                match spec_raw_field(s, from, "\"error\""@) {
                    Option::Some(v) => Some((tag, v)),
                    Option::None => None,
                }
            } else {
                None
            }
        },
    }
}

/// The tag and value text of a storage outcome: success with the raw
/// Michelson value, or error with the raw error value.
pub open spec fn spec_decode_storage(s: Seq<char>) -> Option<(Seq<char>, Seq<char>)> {
    match spec_split_status(s) {
        Option::None => None,
        Option::Some((tag, from)) => {
            if tag == "success"@ {
                match spec_raw_field(s, from, "\"storage\""@) {
                    Option::Some(v) => Some((tag, v)),
                    Option::None => None,
                }
            } else if tag == "error"@ {
                match spec_raw_field(s, from, "\"error\""@) {
                    Option::Some(v) => Some((tag, v)),
                    Option::None => None,
                }
            } else {
                None
            }
        },
    }
}

/// `r` is the transaction outcome written by tag `tag` and value text `v`.
pub open spec fn transaction_response_is(r: TransactionResponse, tag: Seq<char>, v: Seq<char>) -> bool {
    match r {
        TransactionResponse::applied { hash } => tag == "applied"@ && hash@ == v,
        TransactionResponse::failed { hash } => tag == "failed"@ && hash@ == v,
        TransactionResponse::skipped { hash } => tag == "skipped"@ && hash@ == v,
        TransactionResponse::backtracked { hash } => tag == "backtracked"@ && hash@ == v,
        TransactionResponse::unknown { hash } => tag == "unknown"@ && hash@ == v,
        TransactionResponse::error { error } => tag == "error"@ && error@ == v,
    }
}

/// `r` is the storage outcome written by tag `tag` and value text `v`.
pub open spec fn storage_response_is(r: StorageResponse, tag: Seq<char>, v: Seq<char>) -> bool {
    match r {
        StorageResponse::success { storage } => tag == "success"@ && storage@ == v,
        StorageResponse::error { error } => tag == "error"@ && error@ == v,
    }
}

/// Reads the opening of a status-tagged payload. Yields where the tag stands
/// and the position after the comma.
fn split_status(s: &str, n: usize) -> (r: Option<(usize, usize, usize)>)
    requires
        n == s@.len(),
    ensures
        match r {
            Some((ts, te, from)) => spec_split_status(s@) == Some(
                (s@.subrange(ts as int, te as int), from as int),
            ) && ts <= te <= n && from <= n,
            None => spec_split_status(s@) is None,
        },
{
    let i0 = skip_ws(s, 0, n);
    if !(i0 < n) {
        return None;
    }
    if s.get_char(i0) != '{' {
        return None;
    }
    let i1 = skip_ws(s, i0 + 1, n);
    if !lit_at(s, i1, n, "\"status\"") {
        return None;
    }
    proof {
        reveal_strlit("\"status\"");
    }
    let i2 = skip_ws(s, i1 + 8, n);
    if !(i2 < n) {
        return None;
    }
    if s.get_char(i2) != ':' {
        return None;
    }
    let i3 = skip_ws(s, i2 + 1, n);
    if !(i3 < n) {
        return None;
    }
    if s.get_char(i3) != '"' {
        return None;
    }
    let ts = i3 + 1;
    let te = scan_to_quote(s, ts, n);
    if !(te < n) {
        return None;
    }
    if s.get_char(te) != '"' {
        return None;
    }
    let i4 = skip_ws(s, te + 1, n);
    if !(i4 < n) {
        return None;
    }
    if s.get_char(i4) != ',' {
        return None;
    }
    Some((ts, te, i4 + 1))
}

/// Reads a closing raw-value field, yielding the value's text.
fn raw_field(s: &str, from: usize, n: usize, name: &str, name_len: usize) -> (r: Option<String>)
    requires
        from <= n,
        n == s@.len(),
        name@.len() == name_len,
    ensures
        match r {
            Some(v) => spec_raw_field(s@, from as int, name@) == Some(v@),
            None => spec_raw_field(s@, from as int, name@) is None,
        },
{
    let j0 = skip_ws(s, from, n);
    if !lit_at(s, j0, n, name) {
        return None;
    }
    let j1 = skip_ws(s, j0 + name_len, n);
    if !(j1 < n) {
        return None;
    }
    if s.get_char(j1) != ':' {
        return None;
    }
    let vs = skip_ws(s, j1 + 1, n);
    let e0 = rskip_ws(s, n);
    if !(e0 > 0) {
        return None;
    }
    if s.get_char(e0 - 1) != '}' {
        return None;
    }
    let ve = rskip_ws(s, e0 - 1);
    if !(vs < ve) {
        return None;
    }
    Some(s.substring_char(vs, ve).to_owned())
}

/// Reads a closing escape-free string field, yielding the string's contents.
fn string_field(s: &str, from: usize, n: usize, name: &str, name_len: usize) -> (r: Option<
    String,
>)
    requires
        from <= n,
        n == s@.len(),
        name@.len() == name_len,
    ensures
        match r {
            Some(v) => spec_string_field(s@, from as int, name@) == Some(v@),
            None => spec_string_field(s@, from as int, name@) is None,
        },
{
    let j0 = skip_ws(s, from, n);
    if !lit_at(s, j0, n, name) {
        return None;
    }
    let j1 = skip_ws(s, j0 + name_len, n);
    if !(j1 < n) {
        return None;
    }
    if s.get_char(j1) != ':' {
        return None;
    }
    let j2 = skip_ws(s, j1 + 1, n);
    if !(j2 < n) {
        return None;
    }
    if s.get_char(j2) != '"' {
        return None;
    }
    let vs = j2 + 1;
    let ve = scan_to_quote(s, vs, n);
    if !(ve < n) {
        return None;
    }
    if s.get_char(ve) != '"' {
        return None;
    }
    let j3 = skip_ws(s, ve + 1, n);
    if !(j3 < n) {
        return None;
    }
    if s.get_char(j3) != '}' {
        return None;
    }
    let j4 = skip_ws(s, j3 + 1, n);
    if !(j4 == n) {
        return None;
    }
    Some(s.substring_char(vs, ve).to_owned())
}

/// Turns the content text of a reply to a transaction submission into the
/// transaction's outcome, validating the payload's shape at the protocol
/// boundary. Exactly the shapes `spec_decode_transaction` accepts are
/// accepted; anything else is the decode error.
pub fn decode_transaction_response(content: &str) -> (r: Result<TransactionResponse, Error>)
    ensures
        match spec_decode_transaction(content@) {
            Option::Some((tag, v)) => r matches Ok(t) && transaction_response_is(t, tag, v),
            Option::None => r == Err::<TransactionResponse, Error>(Error::Decode),
        },
{
    let n = content.unicode_len();
    let (ts, te, from) = match split_status(content, n) {
        Some(x) => x,
        None => {
            return Err(Error::Decode);
        },
    };
    proof {
        reveal_strlit("applied");
        reveal_strlit("failed");
        reveal_strlit("skipped");
        reveal_strlit("backtracked");
        reveal_strlit("unknown");
        reveal_strlit("error");
        reveal_strlit("\"hash\"");
        reveal_strlit("\"error\"");
    }
    let ghost tag = content@.subrange(ts as int, te as int);
    let m_applied = lit_at(content, ts, n, "applied");
    let m_failed = lit_at(content, ts, n, "failed");
    let m_skipped = lit_at(content, ts, n, "skipped");
    let m_backtracked = lit_at(content, ts, n, "backtracked");
    let m_unknown = lit_at(content, ts, n, "unknown");
    let m_error = lit_at(content, ts, n, "error");
    proof {
        assert(tag.len() == te - ts);
        if tag == "applied"@ && !(m_applied && te - ts == 7) {
            assert(matches_at(content@, ts as int, "applied"@));
        }
        if tag == "failed"@ && !(m_failed && te - ts == 6) {
            assert(matches_at(content@, ts as int, "failed"@));
        }
        if tag == "skipped"@ && !(m_skipped && te - ts == 7) {
            assert(matches_at(content@, ts as int, "skipped"@));
        }
        if tag == "backtracked"@ && !(m_backtracked && te - ts == 11) {
            assert(matches_at(content@, ts as int, "backtracked"@));
        }
        if tag == "unknown"@ && !(m_unknown && te - ts == 7) {
            assert(matches_at(content@, ts as int, "unknown"@));
        }
        if tag == "error"@ && !(m_error && te - ts == 5) {
            assert(matches_at(content@, ts as int, "error"@));
        }
    }
    if m_applied && te - ts == 7 {
        proof {
            assert(tag =~= "applied"@);
        }
        match string_field(content, from, n, "\"hash\"", 6) {
            Some(hash) => Ok(TransactionResponse::applied { hash }),
            None => Err(Error::Decode),
        }
    } else if m_failed && te - ts == 6 {
        proof {
            assert(tag =~= "failed"@);
        }
        match string_field(content, from, n, "\"hash\"", 6) {
            Some(hash) => Ok(TransactionResponse::failed { hash }),
            None => Err(Error::Decode),
        }
    } else if m_skipped && te - ts == 7 {
        proof {
            assert(tag =~= "skipped"@);
        }
        match string_field(content, from, n, "\"hash\"", 6) {
            Some(hash) => Ok(TransactionResponse::skipped { hash }),
            None => Err(Error::Decode),
        }
    } else if m_backtracked && te - ts == 11 {
        proof {
            assert(tag =~= "backtracked"@);
        }
        match string_field(content, from, n, "\"hash\"", 6) {
            Some(hash) => Ok(TransactionResponse::backtracked { hash }),
            None => Err(Error::Decode),
        }
    } else if m_unknown && te - ts == 7 {
        proof {
            assert(tag =~= "unknown"@);
        }
        match string_field(content, from, n, "\"hash\"", 6) {
            Some(hash) => Ok(TransactionResponse::unknown { hash }),
            None => Err(Error::Decode),
        }
    } else if m_error && te - ts == 5 {
        proof {
            assert(tag =~= "error"@);
        }
        match raw_field(content, from, n, "\"error\"", 7) {
            Some(error) => Ok(TransactionResponse::error { error }),
            None => Err(Error::Decode),
        }
    } else {
        proof {
            assert(tag != "applied"@ && tag != "failed"@ && tag != "skipped"@ && tag
                != "backtracked"@ && tag != "unknown"@ && tag != "error"@);
        }
        Err(Error::Decode)
    }
}

/// Turns the content text of a reply to a storage or big-map query into the
/// query's outcome. The Michelson value itself stays uninterpreted text.
pub fn decode_storage_response(content: &str) -> (r: Result<StorageResponse, Error>)
    ensures
        match spec_decode_storage(content@) {
            Option::Some((tag, v)) => r matches Ok(t) && storage_response_is(t, tag, v),
            Option::None => r == Err::<StorageResponse, Error>(Error::Decode),
        },
{
    let n = content.unicode_len();
    let (ts, te, from) = match split_status(content, n) {
        Some(x) => x,
        None => {
            return Err(Error::Decode);
        },
    };
    proof {
        reveal_strlit("success");
        reveal_strlit("error");
        reveal_strlit("\"storage\"");
        reveal_strlit("\"error\"");
    }
    let ghost tag = content@.subrange(ts as int, te as int);
    let m_success = lit_at(content, ts, n, "success");
    let m_error = lit_at(content, ts, n, "error");
    proof {
        assert(tag.len() == te - ts);
        if tag == "success"@ && !(m_success && te - ts == 7) {
            assert(matches_at(content@, ts as int, "success"@));
        }
        if tag == "error"@ && !(m_error && te - ts == 5) {
            assert(matches_at(content@, ts as int, "error"@));
        }
    }
    if m_success && te - ts == 7 {
        proof {
            assert(tag =~= "success"@);
        }
        match raw_field(content, from, n, "\"storage\"", 9) {
            Some(storage) => Ok(StorageResponse::success { storage }),
            None => Err(Error::Decode),
        }
    } else if m_error && te - ts == 5 {
        proof {
            assert(tag =~= "error"@);
        }
        match raw_field(content, from, n, "\"error\"", 7) {
            Some(error) => Ok(StorageResponse::error { error }),
            None => Err(Error::Decode),
        }
    } else {
        proof {
            assert(tag != "success"@ && tag != "error"@);
        }
        Err(Error::Decode)
    }
}

/// Printable text: no character below the space character, in particular no
/// line break and no carriage return.
pub open spec fn text_clean(s: Seq<char>) -> bool {
    forall|i: int| 0 <= i < s.len() ==> (#[trigger] s[i]) as u32 >= 32
}

/// Whatever characters a string field holds, its escaped form is printable:
/// the escaping exists exactly so that field text cannot break the framing.
proof fn lemma_escape_clean(s: Seq<char>)
    ensures
        text_clean(spec_escape(s)),
    decreases s.len(),
{
    if s.len() > 0 {
        lemma_escape_clean(s.drop_last());
        let e = spec_escape_char(s.last());
        assert(text_clean(e));
        assert forall|i: int| 0 <= i < spec_escape(s).len() implies (#[trigger] spec_escape(
            s,
        )[i]) as u32 >= 32 by {
            if i < spec_escape(s.drop_last()).len() {
                assert(spec_escape(s)[i] == spec_escape(s.drop_last())[i]);
            } else {
                assert(spec_escape(s)[i] == e[i - spec_escape(s.drop_last()).len()]);
            }
        }
    }
}

/// Decimal digits are printable.
proof fn lemma_digits_clean(n: nat)
    ensures
        text_clean(spec_digits(n)),
    decreases n,
{
    if n >= 10 {
        lemma_digits_clean(n / 10);
    }
    assert forall|i: int| 0 <= i < spec_digits(n).len() implies (#[trigger] spec_digits(
        n,
    )[i]) as u32 >= 32 by {
        lemma_spec_digits_wf(n);
        assert(is_digit(spec_digits(n)[i]));
    }
}

/// Printability carries over concatenation.
proof fn lemma_clean_concat(a: Seq<char>, b: Seq<char>)
    requires
        text_clean(a),
        text_clean(b),
    ensures
        text_clean(a + b),
{
    assert forall|i: int| 0 <= i < (a + b).len() implies (#[trigger] (a + b)[i]) as u32 >= 32 by {
        if i < a.len() {
            assert((a + b)[i] == a[i]);
        } else {
            assert((a + b)[i] == b[i - a.len()]);
        }
    }
}

/// A comma-joined list of printable pieces is printable.
proof fn lemma_join_clean(elems: Seq<Seq<char>>)
    requires
        forall|i: int| 0 <= i < elems.len() ==> text_clean(#[trigger] elems[i]),
    ensures
        text_clean(spec_join_comma(elems)),
    decreases elems.len(),
{
    if elems.len() > 1 {
        assert forall|i: int| 0 <= i < elems.drop_last().len() implies text_clean(
            #[trigger] elems.drop_last()[i],
        ) by {
            assert(elems.drop_last()[i] == elems[i]);
        }
        lemma_join_clean(elems.drop_last());
        lemma_clean_concat(spec_join_comma(elems.drop_last()), seq![',']);
        lemma_clean_concat(spec_join_comma(elems.drop_last()) + seq![','], elems.last());
    }
}

/// A JSON string literal built by the encoder is printable.
proof fn lemma_json_string_clean(s: Seq<char>)
    ensures
        text_clean(spec_json_string(s)),
{
    lemma_escape_clean(s);
    lemma_clean_concat(seq!['"'], spec_escape(s));
    lemma_clean_concat(seq!['"'] + spec_escape(s), seq!['"']);
}

/// A signed decimal number is printable.
proof fn lemma_enc_i64_clean(n: int)
    ensures
        text_clean(spec_enc_i64(n)),
{
    if n >= 0 {
        lemma_digits_clean(n as nat);
    } else {
        lemma_digits_clean((-n) as nat);
        lemma_clean_concat(seq!['-'], spec_digits((-n) as nat));
    }
}

/// The transaction payloads carry raw JSON text into the line; line framing
/// is sound when that text is printable. Every other field is escaped or
/// numeric and cannot break a line no matter what it holds.
pub open spec fn payloads_line_clean(c: RequestContent) -> bool {
    match c {
        RequestContent::transaction { payload, .. } => forall|i: int|
            0 <= i < payload@.len() ==> text_clean((#[trigger] payload@[i])@),
        _ => true,
    }
}

/// The content object is printable when the payload texts are.
proof fn lemma_content_clean(c: RequestContent)
    requires
        payloads_line_clean(c),
    ensures
        text_clean(spec_enc_content(c)),
{
    reveal_strlit("{\"kind\":\"listen\",\"rpc_node\":");
    reveal_strlit("{\"kind\":\"subscribe\",\"rpc_node\":");
    reveal_strlit("{\"kind\":\"transaction\",\"rpc_node\":");
    reveal_strlit("{\"kind\":\"storage\",\"rpc_node\":");
    reveal_strlit("{\"kind\":\"big_map_keys\",\"rpc_node\":");
    reveal_strlit(",\"confirmation\":");
    reveal_strlit(",\"destination\":");
    reveal_strlit(",\"secret\":");
    reveal_strlit(",\"entrypoint\":");
    reveal_strlit(",\"payload\":");
    reveal_strlit(",\"keys\":");
    reveal_strlit("}");
    match c {
        RequestContent::listen { rpc_node, confirmation, destination } => {
            lemma_json_string_clean(rpc_node@);
            lemma_enc_i64_clean(confirmation as int);
            lemma_json_string_clean(destination@);
            assert(text_clean(spec_enc_content(c)));
        },
        RequestContent::subscribe { rpc_node, confirmation } => {
            lemma_json_string_clean(rpc_node@);
            lemma_enc_i64_clean(confirmation as int);
            assert(text_clean(spec_enc_content(c)));
        },
        RequestContent::transaction {
            rpc_node,
            secret,
            confirmation,
            destination,
            entrypoint,
            payload,
        } => {
            lemma_json_string_clean(rpc_node@);
            lemma_json_string_clean(secret@);
            lemma_enc_i64_clean(confirmation as int);
            lemma_json_string_clean(destination@);
            lemma_json_string_clean(entrypoint@);
            assert forall|i: int| 0 <= i < seq_views(payload@).len() implies text_clean(
                #[trigger] seq_views(payload@)[i],
            ) by {
                assert(seq_views(payload@)[i] == payload@[i]@);
            }
            lemma_join_clean(seq_views(payload@));
            lemma_clean_concat(seq!['['], spec_join_comma(seq_views(payload@)));
            lemma_clean_concat(seq!['['] + spec_join_comma(seq_views(payload@)), seq![']']);
            assert(text_clean(spec_array_raw(seq_views(payload@))));
            assert(text_clean(spec_enc_content(c)));
        },
        RequestContent::storage { rpc_node, confirmation, destination } => {
            lemma_json_string_clean(rpc_node@);
            lemma_enc_i64_clean(confirmation as int);
            lemma_json_string_clean(destination@);
            assert(text_clean(spec_enc_content(c)));
        },
        RequestContent::big_map_keys { rpc_node, confirmation, destination, keys } => {
            lemma_json_string_clean(rpc_node@);
            lemma_enc_i64_clean(confirmation as int);
            lemma_json_string_clean(destination@);
            let key_views = seq_views(keys@).map_values(|e: Seq<char>| spec_json_string(e));
            assert forall|i: int| 0 <= i < key_views.len() implies text_clean(
                #[trigger] key_views[i],
            ) by {
                assert(key_views[i] == spec_json_string(seq_views(keys@)[i]));
                lemma_json_string_clean(seq_views(keys@)[i]);
            }
            lemma_join_clean(key_views);
            lemma_clean_concat(seq!['['], spec_join_comma(key_views));
            lemma_clean_concat(seq!['['] + spec_join_comma(key_views), seq![']']);
            assert(text_clean(spec_array_raw(key_views)));
            assert(text_clean(spec_enc_content(c)));
        },
    }
}

/// Law: a command is exactly one line. The encoded text ends in the one line
/// break that terminates the unit, and no line break occurs anywhere before
/// it, however the string fields try — they are escaped — as long as the raw
/// payload texts are printable.
pub proof fn lemma_exactly_one_line(req: BridgeRequest)
    requires
        payloads_line_clean(req.content),
    ensures
        spec_enc_request(req).len() >= 1,
        spec_enc_request(req).last() == '\n',
        forall|i: int|
            0 <= i < spec_enc_request(req).len() - 1 ==> #[trigger] spec_enc_request(req)[i]
                != '\n',
{
    reveal_strlit("{\"id\":");
    reveal_strlit(",\"content\":");
    reveal_strlit("}\n");
    lemma_digits_clean(req.id as nat);
    lemma_content_clean(req.content);
    let p1 = "{\"id\":"@;
    let d = spec_digits(req.id as nat);
    let p2 = ",\"content\":"@;
    let c = spec_enc_content(req.content);
    let line = spec_enc_request(req);
    let dl = d.len() as int;
    let cl = c.len() as int;
    assert(text_clean(p1));
    assert(text_clean(p2));
    assert(line.len() == 19 + dl + cl);
    assert(line.last() == '\n');
    assert forall|i: int| 0 <= i < line.len() - 1 implies #[trigger] line[i] != '\n' by {
        if i < 6 {
            assert(line[i] == p1[i]);
        } else if i < 6 + dl {
            assert(line[i] == d[i - 6]);
        } else if i < 17 + dl {
            assert(line[i] == p2[i - 6 - dl]);
        } else if i < 17 + dl + cl {
            assert(line[i] == c[i - 17 - dl]);
        } else {
            assert(line[i] == "}\n"@[i - 17 - dl - cl]);
            assert(line[i] == '}');
        }
    }
}

} // verus!
