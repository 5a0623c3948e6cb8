//! The wire codec: a field-named textual serialization of the two envelopes.
//!
//! A [`ClientToServer`] is written as `{"commands":[...],"id":"..."}` and a
//! [`ServerToClient`] as `{"commands":[...]}`, each command as
//! `{"input":"...","output":("..."|null),"id":N}`. Strings escape the quote,
//! the backslash and the common control characters. The decoder accepts
//! exactly this grammar; [`lemma_round_trip_c2s`] and [`lemma_round_trip_s2c`]
//! prove that decoding an encoded envelope gives the envelope back.

use vstd::prelude::*;
use crate::messages::{C2sView, ClientToServer, CmdView, Command, S2cView, ServerToClient};

verus! {

// ---------------------------------------------------------------------------
// The grammar, as spec functions from views to character sequences.
// ---------------------------------------------------------------------------

/// How one character is written inside a quoted string.
pub open spec fn esc_char(c: char) -> Seq<char> {
    if c == '"' {
        seq!['\\', '"']
    } else if c == '\\' {
        seq!['\\', '\\']
    } else if c == '\n' {
        seq!['\\', 'n']
    } else if c == '\r' {
        seq!['\\', 'r']
    } else if c == '\t' {
        seq!['\\', 't']
    } else {
        seq![c]
    }
}

/// The body of a quoted string: every character escaped.
pub open spec fn esc_string(s: Seq<char>) -> Seq<char>
    decreases s.len(),
{
    if s.len() == 0 {
        Seq::<char>::empty()
    } else {
        esc_char(s[0]) + esc_string(s.drop_first())
    }
}

/// A quoted, escaped string.
pub open spec fn json_string(s: Seq<char>) -> Seq<char> {
    seq!['"'] + esc_string(s) + seq!['"']
}

/// The decimal digit characters.
pub open spec fn digit_char(d: nat) -> char {
    if d == 0 { '0' }
    else if d == 1 { '1' }
    else if d == 2 { '2' }
    else if d == 3 { '3' }
    else if d == 4 { '4' }
    else if d == 5 { '5' }
    else if d == 6 { '6' }
    else if d == 7 { '7' }
    else if d == 8 { '8' }
    else { '9' }
}

/// A number in decimal, most significant digit first, no leading zeros.
pub open spec fn dec_nat(n: nat) -> Seq<char>
    decreases n,
{
    if n < 10 {
        seq![digit_char(n)]
    } else {
        dec_nat(n / 10).push(digit_char(n % 10))
    }
}

pub open spec fn lit_null() -> Seq<char> {
    seq!['n', 'u', 'l', 'l']
}

pub open spec fn lit_input_key() -> Seq<char> {
    seq!['{', '"', 'i', 'n', 'p', 'u', 't', '"', ':']
}

pub open spec fn lit_output_key() -> Seq<char> {
    seq![',', '"', 'o', 'u', 't', 'p', 'u', 't', '"', ':']
}

pub open spec fn lit_id_key() -> Seq<char> {
    seq![',', '"', 'i', 'd', '"', ':']
}

pub open spec fn lit_commands_key() -> Seq<char> {
    seq!['{', '"', 'c', 'o', 'm', 'm', 'a', 'n', 'd', 's', '"', ':']
}

/// An optional output: `null`, or a quoted string.
pub open spec fn json_output(o: Option<Seq<char>>) -> Seq<char> {
    match o {
        None => lit_null(),
        Some(s) => json_string(s),
    }
}

/// One command object.
pub open spec fn json_cmd(c: CmdView) -> Seq<char> {
    lit_input_key() + json_string(c.input) + lit_output_key() + json_output(c.output)
        + lit_id_key() + dec_nat(c.id) + seq!['}']
}

/// The comma-separated command objects (no brackets).
pub open spec fn json_cmds_body(cs: Seq<CmdView>) -> Seq<char>
    decreases cs.len(),
{
    if cs.len() == 0 {
        Seq::<char>::empty()
    } else if cs.len() == 1 {
        json_cmd(cs[0])
    } else {
        json_cmd(cs[0]) + seq![','] + json_cmds_body(cs.drop_first())
    }
}

/// The bracketed command list.
pub open spec fn json_cmds(cs: Seq<CmdView>) -> Seq<char> {
    seq!['['] + json_cmds_body(cs) + seq![']']
}

/// The whole agent-to-controller envelope.
pub open spec fn json_c2s(m: C2sView) -> Seq<char> {
    lit_commands_key() + json_cmds(m.commands) + lit_id_key() + json_string(m.id) + seq!['}']
}

/// The whole controller-to-agent envelope.
pub open spec fn json_s2c(m: S2cView) -> Seq<char> {
    lit_commands_key() + json_cmds(m.commands) + seq!['}']
}

// ---------------------------------------------------------------------------
// The encoder.
// ---------------------------------------------------------------------------

/// Relies on String::push: appends the given character to the end.
#[verifier::external_body]
fn push_char(out: &mut String, c: char)
    ensures
        final(out)@ == old(out)@.push(c),
{
    out.push(c);
}

/// Append the escaped tail of `s` starting at `from`.
fn encode_esc_from(out: &mut String, s: &str, from: usize)
    requires
        from <= s@.len(),
    ensures
        final(out)@ == old(out)@ + esc_string(s@.subrange(from as int, s@.len() as int)),
    decreases s@.len() - from,
{
    let n = s.unicode_len();
    if from == n {
        proof {
            assert(s@.subrange(from as int, s@.len() as int) =~= Seq::<char>::empty());
            assert(final(out)@ =~= old(out)@ + Seq::<char>::empty());
        }
    } else {
        let c = s.get_char(from);
        let ghost tail = s@.subrange(from as int, s@.len() as int);
        proof {
            assert(tail[0] == s@[from as int]);
            assert(tail.drop_first() =~= s@.subrange(from + 1 as int, s@.len() as int));
        }
        if c == '"' {
            push_char(out, '\\');
            push_char(out, '"');
        } else if c == '\\' {
            push_char(out, '\\');
            push_char(out, '\\');
        } else if c == '\n' {
            push_char(out, '\\');
            push_char(out, 'n');
        } else if c == '\r' {
            push_char(out, '\\');
            push_char(out, 'r');
        } else if c == '\t' {
            push_char(out, '\\');
            push_char(out, 't');
        } else {
            push_char(out, c);
        }
        proof {
            assert(out@ =~= old(out)@ + esc_char(tail[0]));
        }
        encode_esc_from(out, s, from + 1);
        proof {
            assert(final(out)@ =~= old(out)@ + esc_string(tail));
        }
    }
}

/// Append a quoted, escaped string.
fn encode_json_string(out: &mut String, s: &str)
    ensures
        final(out)@ == old(out)@ + json_string(s@),
{
    push_char(out, '"');
    encode_esc_from(out, s, 0);
    proof {
        assert(s@.subrange(0, s@.len() as int) =~= s@);
    }
    push_char(out, '"');
    proof {
        assert(final(out)@ =~= old(out)@ + json_string(s@));
    }
}

/// Append a number in decimal.
fn encode_usize(out: &mut String, n: usize)
    ensures
        final(out)@ == old(out)@ + dec_nat(n as nat),
    decreases n,
{
    if n < 10 {
        let d: usize = n;
        push_char(out, digit_of(d));
        proof {
            assert(final(out)@ =~= old(out)@ + dec_nat(n as nat));
        }
    } else {
        encode_usize(out, n / 10);
        push_char(out, digit_of(n % 10));
        proof {
            assert(final(out)@ =~= old(out)@ + dec_nat(n as nat));
        }
    }
}

/// The digit character for a value below ten.
fn digit_of(d: usize) -> (c: char)
    requires
        d < 10,
    ensures
        c == digit_char(d as nat),
{
    if d == 0 { '0' }
    else if d == 1 { '1' }
    else if d == 2 { '2' }
    else if d == 3 { '3' }
    else if d == 4 { '4' }
    else if d == 5 { '5' }
    else if d == 6 { '6' }
    else if d == 7 { '7' }
    else if d == 8 { '8' }
    else { '9' }
}

/// Append `{"input":`.
fn encode_input_key(out: &mut String)
    ensures
        final(out)@ == old(out)@ + lit_input_key(),
{
    push_char(out, '{');
    push_char(out, '"');
    push_char(out, 'i');
    push_char(out, 'n');
    push_char(out, 'p');
    push_char(out, 'u');
    push_char(out, 't');
    push_char(out, '"');
    push_char(out, ':');
    proof {
        assert(final(out)@ =~= old(out)@ + lit_input_key());
    }
}

/// Append `,"output":`.
fn encode_output_key(out: &mut String)
    ensures
        final(out)@ == old(out)@ + lit_output_key(),
{
    push_char(out, ',');
    push_char(out, '"');
    push_char(out, 'o');
    push_char(out, 'u');
    push_char(out, 't');
    push_char(out, 'p');
    push_char(out, 'u');
    push_char(out, 't');
    push_char(out, '"');
    push_char(out, ':');
    proof {
        assert(final(out)@ =~= old(out)@ + lit_output_key());
    }
}

/// Append `,"id":`.
fn encode_id_key(out: &mut String)
    ensures
        final(out)@ == old(out)@ + lit_id_key(),
{
    push_char(out, ',');
    push_char(out, '"');
    push_char(out, 'i');
    push_char(out, 'd');
    push_char(out, '"');
    push_char(out, ':');
    proof {
        assert(final(out)@ =~= old(out)@ + lit_id_key());
    }
}

/// Append `null`.
fn encode_null(out: &mut String)
    ensures
        final(out)@ == old(out)@ + lit_null(),
{
    push_char(out, 'n');
    push_char(out, 'u');
    push_char(out, 'l');
    push_char(out, 'l');
    proof {
        assert(final(out)@ =~= old(out)@ + lit_null());
    }
}

/// Append one command object.
fn encode_cmd(out: &mut String, c: &Command)
    ensures
        final(out)@ == old(out)@ + json_cmd(c@),
{
    encode_input_key(out);
    encode_json_string(out, c.input.as_str());
    encode_output_key(out);
    match &c.output {
        Some(s) => {
            encode_json_string(out, s.as_str());
        },
        None => {
            encode_null(out);
        },
    }
    proof {
        assert(out@ =~= old(out)@ + lit_input_key() + json_string(c@.input) + lit_output_key()
            + json_output(c@.output));
    }
    encode_id_key(out);
    encode_usize(out, c.id);
    push_char(out, '}');
    proof {
        assert(final(out)@ =~= old(out)@ + json_cmd(c@));
    }
}

/// Append the command objects from `from` on, comma separated.
fn encode_cmds_from(out: &mut String, cmds: &Vec<Command>, from: usize)
    requires
        from <= cmds@.len(),
    ensures
        final(out)@ == old(out)@ + json_cmds_body(
            cmds@.map_values(|c: Command| c@).subrange(from as int, cmds@.len() as int),
        ),
    decreases cmds@.len() - from,
{
    let ghost views = cmds@.map_values(|c: Command| c@);
    let ghost tail = views.subrange(from as int, views.len() as int);
    if from == cmds.len() {
        proof {
            assert(tail =~= Seq::<CmdView>::empty());
            assert(final(out)@ =~= old(out)@ + Seq::<char>::empty());
        }
    } else {
        encode_cmd(out, &cmds[from]);
        proof {
            assert(tail[0] == views[from as int]);
        }
        if from + 1 == cmds.len() {
            proof {
                assert(tail.len() == 1);
                assert(final(out)@ =~= old(out)@ + json_cmds_body(tail));
            }
        } else {
            push_char(out, ',');
            encode_cmds_from(out, cmds, from + 1);
            proof {
                assert(tail.drop_first() =~= views.subrange(from + 1 as int, views.len() as int));
                assert(tail.len() > 1);
                assert(final(out)@ =~= old(out)@ + json_cmds_body(tail));
            }
        }
    }
}

/// Append the bracketed command list.
fn encode_cmds(out: &mut String, cmds: &Vec<Command>)
    ensures
        final(out)@ == old(out)@ + json_cmds(cmds@.map_values(|c: Command| c@)),
{
    push_char(out, '[');
    encode_cmds_from(out, cmds, 0);
    proof {
        let views = cmds@.map_values(|c: Command| c@);
        assert(views.subrange(0, views.len() as int) =~= views);
    }
    push_char(out, ']');
    proof {
        assert(final(out)@ =~= old(out)@ + json_cmds(cmds@.map_values(|c: Command| c@)));
    }
}

/// Append `{"commands":` — the shared head of both envelopes.
fn encode_commands_key(out: &mut String)
    ensures
        final(out)@ == old(out)@ + lit_commands_key(),
{
    push_char(out, '{');
    push_char(out, '"');
    push_char(out, 'c');
    push_char(out, 'o');
    push_char(out, 'm');
    push_char(out, 'm');
    push_char(out, 'a');
    push_char(out, 'n');
    push_char(out, 'd');
    push_char(out, 's');
    push_char(out, '"');
    push_char(out, ':');
    proof {
        assert(final(out)@ =~= old(out)@ + lit_commands_key());
    }
}

impl ClientToServer {
    /// Serialize this envelope.
    pub fn to_json(&self) -> (r: String)
        ensures
            r@ == json_c2s(self@),
    {
        let mut out = String::new();
        encode_commands_key(&mut out);
        encode_cmds(&mut out, &self.commands);
        encode_id_key(&mut out);
        encode_json_string(&mut out, self.id.as_str());
        push_char(&mut out, '}');
        proof {
            assert(out@ =~= json_c2s(self@));
        }
        out
    }
}

impl ServerToClient {
    /// Serialize this envelope.
    pub fn to_json(&self) -> (r: String)
        ensures
            r@ == json_s2c(self@),
    {
        let mut out = String::new();
        encode_commands_key(&mut out);
        encode_cmds(&mut out, &self.commands);
        push_char(&mut out, '}');
        proof {
            assert(out@ =~= json_s2c(self@));
        }
        out
    }
}

// ---------------------------------------------------------------------------
// The parser, at the specification level: position-passing recursive descent.
// ---------------------------------------------------------------------------

/// The character an escape code stands for.
pub open spec fn unesc_char(c: char) -> Option<char> {
    if c == '"' { Some('"') }
    else if c == '\\' { Some('\\') }
    else if c == 'n' { Some('\n') }
    else if c == 'r' { Some('\r') }
    else if c == 't' { Some('\t') }
    else { None }
}

/// Parse the body of a quoted string (after the opening quote) up to and
/// over the closing quote.
pub open spec fn parse_str_body(s: Seq<char>, i: int) -> Option<(Seq<char>, int)>
    decreases s.len() - i,
{
    if i < 0 || i >= s.len() {
        None
    } else if s[i] == '"' {
        Some((Seq::<char>::empty(), i + 1))
    } else if s[i] == '\\' {
        if i + 1 < s.len() {
            match unesc_char(s[i + 1]) {
                Some(c) => match parse_str_body(s, i + 2) {
                    Some(r) => Some((seq![c] + r.0, r.1)),
                    None => None,
                },
                None => None,
            }
        } else {
            None
        }
    } else {
        match parse_str_body(s, i + 1) {
            Some(r) => Some((seq![s[i]] + r.0, r.1)),
            None => None,
        }
    }
}

/// Parse a quoted string.
pub open spec fn parse_string(s: Seq<char>, i: int) -> Option<(Seq<char>, int)> {
    if 0 <= i < s.len() && s[i] == '"' {
        parse_str_body(s, i + 1)
    } else {
        None
    }
}

/// Parse a fixed literal.
pub open spec fn parse_lit(s: Seq<char>, i: int, lit: Seq<char>) -> Option<int> {
    if 0 <= i && i + lit.len() <= s.len() && s.subrange(i, i + lit.len() as int) == lit {
        Some(i + lit.len() as int)
    } else {
        None
    }
}

pub open spec fn is_digit(c: char) -> bool {
    c == '0' || c == '1' || c == '2' || c == '3' || c == '4' || c == '5' || c == '6' || c == '7'
        || c == '8' || c == '9'
}

pub open spec fn digit_val(c: char) -> nat {
    if c == '0' { 0 }
    else if c == '1' { 1 }
    else if c == '2' { 2 }
    else if c == '3' { 3 }
    else if c == '4' { 4 }
    else if c == '5' { 5 }
    else if c == '6' { 6 }
    else if c == '7' { 7 }
    else if c == '8' { 8 }
    else { 9 }
}

/// The end of the digit run starting at `i`.
pub open spec fn digits_end(s: Seq<char>, i: int) -> int
    decreases s.len() - i,
{
    if 0 <= i < s.len() && is_digit(s[i]) {
        digits_end(s, i + 1)
    } else {
        i
    }
}

/// The value of the digits `s[i..j]`.
pub open spec fn digits_val(s: Seq<char>, i: int, j: int) -> nat
    decreases j - i,
{
    if i < j {
        digits_val(s, i, j - 1) * 10 + digit_val(s[j - 1])
    } else {
        0
    }
}

/// Parse an unsigned decimal number that fits a `usize`.
pub open spec fn parse_number(s: Seq<char>, i: int) -> Option<(nat, int)> {
    if 0 <= i < s.len() && is_digit(s[i]) {
        if digits_val(s, i, digits_end(s, i)) <= usize::MAX as nat {
            Some((digits_val(s, i, digits_end(s, i)), digits_end(s, i)))
        } else {
            None
        }
    } else {
        None
    }
}

/// Parse an output field: `null` or a quoted string.
pub open spec fn parse_output(s: Seq<char>, i: int) -> Option<(Option<Seq<char>>, int)> {
    match parse_lit(s, i, lit_null()) {
        Some(j) => Some((None, j)),
        None => match parse_string(s, i) {
            Some(r) => Some((Some(r.0), r.1)),
            None => None,
        },
    }
}

/// Parse one command object.
pub open spec fn parse_cmd(s: Seq<char>, i: int) -> Option<(CmdView, int)> {
    match parse_lit(s, i, lit_input_key()) {
        None => None,
        Some(j1) => match parse_string(s, j1) {
            None => None,
            Some((input, j2)) => match parse_lit(s, j2, lit_output_key()) {
                None => None,
                Some(j3) => match parse_output(s, j3) {
                    None => None,
                    Some((output, j4)) => match parse_lit(s, j4, lit_id_key()) {
                        None => None,
                        Some(j5) => match parse_number(s, j5) {
                            None => None,
                            Some((id, j6)) => if j6 < s.len() && s[j6] == '}' {
                                Some((CmdView { input, output, id }, j6 + 1))
                            } else {
                                None
                            },
                        },
                    },
                },
            },
        },
    }
}

/// Parse what follows a command inside the list: `]`, or `,` and another
/// command.
pub open spec fn parse_cmds_rest(s: Seq<char>, i: int) -> Option<(Seq<CmdView>, int)>
    decreases s.len() - i,
{
    if i < 0 || i >= s.len() {
        None
    } else if s[i] == ']' {
        Some((Seq::<CmdView>::empty(), i + 1))
    } else if s[i] == ',' {
        match parse_cmd(s, i + 1) {
            None => None,
            Some((c, j)) => if i < j {
                match parse_cmds_rest(s, j) {
                    None => None,
                    Some((cs, k)) => Some((seq![c] + cs, k)),
                }
            } else {
                None
            },
        }
    } else {
        None
    }
}

/// Parse the bracketed command list.
pub open spec fn parse_cmds(s: Seq<char>, i: int) -> Option<(Seq<CmdView>, int)> {
    if 0 <= i < s.len() && s[i] == '[' {
        if i + 1 < s.len() && s[i + 1] == ']' {
            Some((Seq::<CmdView>::empty(), i + 2))
        } else {
            match parse_cmd(s, i + 1) {
                None => None,
                Some((c, j)) => if i < j {
                    match parse_cmds_rest(s, j) {
                        None => None,
                        Some((cs, k)) => Some((seq![c] + cs, k)),
                    }
                } else {
                    None
                },
            }
        }
    } else {
        None
    }
}

/// Parse a whole agent-to-controller envelope; the text must end with it.
pub open spec fn parse_c2s(s: Seq<char>) -> Option<C2sView> {
    match parse_lit(s, 0, lit_commands_key()) {
        None => None,
        Some(j1) => match parse_cmds(s, j1) {
            None => None,
            Some((cs, j2)) => match parse_lit(s, j2, lit_id_key()) {
                None => None,
                Some(j3) => match parse_string(s, j3) {
                    None => None,
                    Some((id, j4)) => if j4 + 1 == s.len() && s[j4] == '}' {
                        Some(C2sView { commands: cs, id })
                    } else {
                        None
                    },
                },
            },
        },
    }
}

/// Parse a whole controller-to-agent envelope; the text must end with it.
pub open spec fn parse_s2c(s: Seq<char>) -> Option<S2cView> {
    match parse_lit(s, 0, lit_commands_key()) {
        None => None,
        Some(j1) => match parse_cmds(s, j1) {
            None => None,
            Some((cs, j2)) => if j2 + 1 == s.len() && s[j2] == '}' {
                Some(S2cView { commands: cs })
            } else {
                None
            },
        },
    }
}

// ---------------------------------------------------------------------------
// The parser, as executable code proved equal to the spec parser.
// ---------------------------------------------------------------------------

/// The escape code a character stands for, as executable code.
fn unesc_exec(c: char) -> (r: Option<char>)
    ensures
        r == unesc_char(c),
{
    if c == '"' { Some('"') }
    else if c == '\\' { Some('\\') }
    else if c == 'n' { Some('\n') }
    else if c == 'r' { Some('\r') }
    else if c == 't' { Some('\t') }
    else { None }
}

/// Whether a character is a decimal digit, as executable code.
fn is_digit_exec(c: char) -> (r: bool)
    ensures
        r == is_digit(c),
{
    c == '0' || c == '1' || c == '2' || c == '3' || c == '4' || c == '5' || c == '6' || c == '7'
        || c == '8' || c == '9'
}

/// A digit's value, as executable code.
fn digit_val_exec(c: char) -> (r: usize)
    requires
        is_digit(c),
    ensures
        r == digit_val(c),
{
    if c == '0' { 0 }
    else if c == '1' { 1 }
    else if c == '2' { 2 }
    else if c == '3' { 3 }
    else if c == '4' { 4 }
    else if c == '5' { 5 }
    else if c == '6' { 6 }
    else if c == '7' { 7 }
    else if c == '8' { 8 }
    else { 9 }
}

/// Run the string-body parser.
fn parse_str_body_at(s: &str, pos: usize) -> (r: Option<(String, usize)>)
    ensures
        match r {
            Some(p) => parse_str_body(s@, pos as int) == Some((p.0@, p.1 as int))
                && p.1 <= s@.len(),
            None => parse_str_body(s@, pos as int) is None,
        },
    decreases s@.len() - pos,
{
    let n = s.unicode_len();
    if pos >= n {
        return None;
    }
    let c = s.get_char(pos);
    if c == '"' {
        let w = String::new();
        return Some((w, pos + 1));
    }
    if c == '\\' {
        if pos + 1 < n {
            let e = s.get_char(pos + 1);
            match unesc_exec(e) {
                Some(u) => {
                    match parse_str_body_at(s, pos + 2) {
                        Some((t, j)) => {
                            let mut w = String::new();
                            push_char(&mut w, u);
                            w.append(t.as_str());
                            proof {
                                assert(w@ =~= seq![u] + t@);
                            }
                            Some((w, j))
                        },
                        None => None,
                    }
                },
                None => None,
            }
        } else {
            None
        }
    } else {
        match parse_str_body_at(s, pos + 1) {
            Some((t, j)) => {
                let mut w = String::new();
                push_char(&mut w, c);
                w.append(t.as_str());
                proof {
                    assert(w@ =~= seq![c] + t@);
                }
                Some((w, j))
            },
            None => None,
        }
    }
}

/// Run the quoted-string parser.
fn parse_string_at(s: &str, pos: usize) -> (r: Option<(String, usize)>)
    ensures
        match r {
            Some(p) => parse_string(s@, pos as int) == Some((p.0@, p.1 as int))
                && p.1 <= s@.len(),
            None => parse_string(s@, pos as int) is None,
        },
{
    let n = s.unicode_len();
    if pos < n && s.get_char(pos) == '"' {
        parse_str_body_at(s, pos + 1)
    } else {
        None
    }
}

/// Match a fixed literal at a position.
fn eat_lit(s: &str, pos: usize, lit: &str) -> (r: Option<usize>)
    ensures
        match r {
            Some(j) => parse_lit(s@, pos as int, lit@) == Some(j as int) && j <= s@.len(),
            None => parse_lit(s@, pos as int, lit@) is None,
        },
{
    let n = s.unicode_len();
    let m = lit.unicode_len();
    if m > n || pos > n - m {
        return None;
    }
    let mut k: usize = 0;
    while k < m
        invariant
            n == s@.len(),
            m == lit@.len(),
            pos + m <= n,
            k <= m,
            forall|j: int| 0 <= j < k ==> s@[pos + j] == lit@[j],
        decreases m - k,
    {
        if s.get_char(pos + k) != lit.get_char(k) {
            proof {
                let sub = s@.subrange(pos as int, pos + m as int);
                assert(sub[k as int] == s@[pos + k]);
                assert(sub != lit@);
            }
            return None;
        }
        k = k + 1;
    }
    proof {
        assert(s@.subrange(pos as int, pos + m as int) =~= lit@);
    }
    Some(pos + m)
}

/// The end of the digit run is where the scan stops.
proof fn lemma_digits_end_at(s: Seq<char>, i: int, k: int)
    requires
        0 <= i <= k <= s.len(),
        forall|j: int| i <= j < k ==> is_digit(#[trigger] s[j]),
        k == s.len() || !is_digit(s[k]),
    ensures
        digits_end(s, i) == k,
    decreases k - i,
{
    if i < k {
        lemma_digits_end_at(s, i + 1, k);
    }
}

/// Run the number parser, detecting values that do not fit a `usize`.
fn parse_number_at(s: &str, pos: usize) -> (r: Option<(usize, usize)>)
    ensures
        match r {
            Some(p) => parse_number(s@, pos as int) == Some((p.0 as nat, p.1 as int))
                && p.1 <= s@.len(),
            None => parse_number(s@, pos as int) is None,
        },
{
    let n = s.unicode_len();
    if pos >= n {
        return None;
    }
    if !is_digit_exec(s.get_char(pos)) {
        return None;
    }
    let mut k: usize = pos;
    let mut val: usize = 0;
    let mut overflow: bool = false;
    let mut stop: bool = false;
    while !stop
        invariant
            n == s@.len(),
            pos <= k <= n,
            forall|j: int| pos <= j < k ==> is_digit(#[trigger] s@[j]),
            stop ==> k == n || !is_digit(s@[k as int]),
            !overflow ==> val == digits_val(s@, pos as int, k as int),
            overflow ==> digits_val(s@, pos as int, k as int) > usize::MAX as nat,
        decreases n - k + (if stop { 0int } else { 1int }),
    {
        if k >= n {
            stop = true;
        } else {
            let c = s.get_char(k);
            if !is_digit_exec(c) {
                stop = true;
            } else {
                let d = digit_val_exec(c);
                proof {
                    assert(digits_val(s@, pos as int, k + 1 as int) == digits_val(
                        s@,
                        pos as int,
                        k as int,
                    ) * 10 + digit_val(s@[k as int]));
                }
                if overflow {
                    proof {
                        let v = digits_val(s@, pos as int, k as int);
                        assert(v * 10 >= v) by (nonlinear_arith)
                            requires v >= 0;
                    }
                } else if val > (usize::MAX - d) / 10 {
                    proof {
                        let v = val as int;
                        let dd = d as int;
                        let mx = usize::MAX as int;
                        assert(v >= (mx - dd) / 10 + 1);
                        assert(((mx - dd) / 10 + 1) * 10 >= mx - dd + 1) by (nonlinear_arith);
                        assert(v * 10 >= ((mx - dd) / 10 + 1) * 10) by (nonlinear_arith)
                            requires v >= (mx - dd) / 10 + 1;
                        assert(v * 10 + dd > mx);
                    }
                    overflow = true;
                } else {
                    val = val * 10 + d;
                }
                k = k + 1;
            }
        }
    }
    proof {
        lemma_digits_end_at(s@, pos as int, k as int);
    }
    if overflow {
        None
    } else {
        Some((val, k))
    }
}

/// Run the output parser: `null` or a quoted string.
fn parse_output_at(s: &str, pos: usize) -> (r: Option<(Option<String>, usize)>)
    ensures
        match r {
            Some(p) => parse_output(s@, pos as int) == Some((
                match p.0 {
                    Some(ref t) => Some(t@),
                    None => None,
                },
                p.1 as int,
            )) && p.1 <= s@.len(),
            None => parse_output(s@, pos as int) is None,
        },
{
    let null_lit = "null";
    proof {
        reveal_strlit("null");
        assert(null_lit@ =~= lit_null());
    }
    match eat_lit(s, pos, null_lit) {
        Some(j) => Some((None, j)),
        None => {
            match parse_string_at(s, pos) {
                Some((t, j)) => Some((Some(t), j)),
                None => None,
            }
        },
    }
}

/// Run the command-object parser.
fn parse_cmd_at(s: &str, pos: usize) -> (r: Option<(Command, usize)>)
    ensures
        match r {
            Some(p) => parse_cmd(s@, pos as int) == Some((p.0@, p.1 as int)) && p.1 <= s@.len(),
            None => parse_cmd(s@, pos as int) is None,
        },
{
    let input_key = "{\"input\":";
    let output_key = ",\"output\":";
    let id_key = ",\"id\":";
    proof {
        reveal_strlit("{\"input\":");
        reveal_strlit(",\"output\":");
        reveal_strlit(",\"id\":");
        assert(input_key@ =~= lit_input_key());
        assert(output_key@ =~= lit_output_key());
        assert(id_key@ =~= lit_id_key());
    }
    let j1 = match eat_lit(s, pos, input_key) {
        Some(j) => j,
        None => {
            return None;
        },
    };
    let (input, j2) = match parse_string_at(s, j1) {
        Some(p) => p,
        None => {
            return None;
        },
    };
    let j3 = match eat_lit(s, j2, output_key) {
        Some(j) => j,
        None => {
            return None;
        },
    };
    let (output, j4) = match parse_output_at(s, j3) {
        Some(p) => p,
        None => {
            return None;
        },
    };
    let j5 = match eat_lit(s, j4, id_key) {
        Some(j) => j,
        None => {
            return None;
        },
    };
    let (id, j6) = match parse_number_at(s, j5) {
        Some(p) => p,
        None => {
            return None;
        },
    };
    let n = s.unicode_len();
    if j6 < n && s.get_char(j6) == '}' {
        let cmd = Command { input, output, id };
        Some((cmd, j6 + 1))
    } else {
        None
    }
}

/// Run the parser for the rest of a command list: `]`, or `,` and on.
fn parse_cmds_rest_at(s: &str, pos: usize) -> (r: Option<(Vec<Command>, usize)>)
    ensures
        match r {
            Some(p) => parse_cmds_rest(s@, pos as int) == Some((
                p.0@.map_values(|c: Command| c@),
                p.1 as int,
            )) && p.1 <= s@.len(),
            None => parse_cmds_rest(s@, pos as int) is None,
        },
    decreases s@.len() - pos,
{
    let n = s.unicode_len();
    if pos >= n {
        return None;
    }
    let c = s.get_char(pos);
    if c == ']' {
        let v: Vec<Command> = Vec::new();
        proof {
            assert(v@.map_values(|cc: Command| cc@) =~= Seq::<CmdView>::empty());
        }
        return Some((v, pos + 1));
    }
    if c == ',' {
        match parse_cmd_at(s, pos + 1) {
            None => None,
            Some((cmd, j)) => {
                if pos < j {
                    match parse_cmds_rest_at(s, j) {
                        None => None,
                        Some((mut rest, k)) => {
                            let ghost rest_views = rest@.map_values(|cc: Command| cc@);
                            rest.insert(0, cmd);
                            proof {
                                assert(rest@.map_values(|cc: Command| cc@) =~= seq![cmd@]
                                    + rest_views);
                            }
                            Some((rest, k))
                        },
                    }
                } else {
                    None
                }
            },
        }
    } else {
        None
    }
}

/// Run the bracketed command-list parser.
fn parse_cmds_at(s: &str, pos: usize) -> (r: Option<(Vec<Command>, usize)>)
    ensures
        match r {
            Some(p) => parse_cmds(s@, pos as int) == Some((
                p.0@.map_values(|c: Command| c@),
                p.1 as int,
            )) && p.1 <= s@.len(),
            None => parse_cmds(s@, pos as int) is None,
        },
{
    let n = s.unicode_len();
    if pos >= n || s.get_char(pos) != '[' {
        return None;
    }
    if pos + 1 < n && s.get_char(pos + 1) == ']' {
        let v: Vec<Command> = Vec::new();
        proof {
            assert(v@.map_values(|cc: Command| cc@) =~= Seq::<CmdView>::empty());
        }
        return Some((v, pos + 2));
    }
    match parse_cmd_at(s, pos + 1) {
        None => None,
        Some((cmd, j)) => {
            if pos < j {
                match parse_cmds_rest_at(s, j) {
                    None => None,
                    Some((mut rest, k)) => {
                        let ghost rest_views = rest@.map_values(|cc: Command| cc@);
                        rest.insert(0, cmd);
                        proof {
                            assert(rest@.map_values(|cc: Command| cc@) =~= seq![cmd@]
                                + rest_views);
                        }
                        Some((rest, k))
                    },
                }
            } else {
                None
            }
        },
    }
}

// ---------------------------------------------------------------------------
// Round trip: parsing an encoded envelope gives the envelope back.
// ---------------------------------------------------------------------------

/// The text from position `i` to the end.
pub open spec fn suffix(s: Seq<char>, i: int) -> Seq<char> {
    s.subrange(i, s.len() as int)
}

/// Every id of the list fits a `usize` — true of every list that an actual
/// envelope carries.
pub open spec fn cmds_wf(cs: Seq<CmdView>) -> bool {
    forall|j: int| 0 <= j < cs.len() ==> (#[trigger] cs[j]).id <= usize::MAX as nat
}

/// Splitting a known suffix: after `a`, the rest is `b`.
proof fn lemma_suffix_split(s: Seq<char>, i: int, a: Seq<char>, b: Seq<char>)
    requires
        0 <= i <= s.len(),
        suffix(s, i) == a + b,
    ensures
        i + a.len() <= s.len(),
        suffix(s, i + a.len()) == b,
        s.subrange(i, i + a.len() as int) == a,
        forall|j: int| i <= j < i + a.len() ==> #[trigger] s[j] == a[j - i],
{
    let t = suffix(s, i);
    assert(t.len() == a.len() + b.len());
    assert(s.subrange(i, i + a.len() as int) =~= a);
    assert forall|j: int| 0 <= j < b.len() implies #[trigger] suffix(s, i + a.len())[j]
        == b[j] by {
        assert(t[a.len() + j] == (a + b)[a.len() + j]);
        assert((a + b)[a.len() + j] == b[j]);
        assert(t[a.len() + j] == s[i + a.len() + j]);
        assert(suffix(s, i + a.len())[j] == s[i + a.len() + j]);
    }
    assert(suffix(s, i + a.len()) =~= b);
    assert forall|j: int| i <= j < i + a.len() implies #[trigger] s[j] == a[j - i] by {
        assert(suffix(s, i)[j - i] == s[j]);
    }
}

/// A literal standing at its position parses to the position after it.
proof fn lemma_parse_lit_inv(s: Seq<char>, i: int, lit: Seq<char>, rest: Seq<char>)
    requires
        0 <= i <= s.len(),
        suffix(s, i) == lit + rest,
    ensures
        parse_lit(s, i, lit) == Some(i + lit.len() as int),
        suffix(s, i + lit.len()) == rest,
{
    lemma_suffix_split(s, i, lit, rest);
}

/// An escaped string body followed by its closing quote parses back to the
/// string.
proof fn lemma_parse_str_body_inv(s: Seq<char>, i: int, t: Seq<char>, rest: Seq<char>)
    requires
        0 <= i <= s.len(),
        suffix(s, i) == esc_string(t) + seq!['"'] + rest,
    ensures
        parse_str_body(s, i) == Some((t, i + esc_string(t).len() + 1)),
    decreases t.len(),
{
    if t.len() == 0 {
        assert(esc_string(t) + seq!['"'] + rest =~= seq!['"'] + rest);
        lemma_suffix_split(s, i, seq!['"'], rest);
        assert(s[i] == '"');
        assert(parse_str_body(s, i) == Some((Seq::<char>::empty(), i + 1)));
        assert(t =~= Seq::<char>::empty());
    } else {
        let c0 = t[0];
        let t2 = t.drop_first();
        let ec = esc_char(c0);
        assert(esc_string(t) == ec + esc_string(t2));
        let after = esc_string(t2) + seq!['"'] + rest;
        assert(suffix(s, i) =~= ec + after);
        lemma_suffix_split(s, i, ec, after);
        let i2 = i + ec.len();
        lemma_parse_str_body_inv(s, i2, t2, rest);
        assert(seq![c0] + t2 =~= t);
        if c0 == '"' || c0 == '\\' || c0 == '\n' || c0 == '\r' || c0 == '\t' {
            assert(ec.len() == 2);
            assert(s[i] == ec[0] && s[i + 1] == ec[1]);
            assert(s[i] == '\\');
            assert(unesc_char(s[i + 1]) == Some(c0));
            assert(i + 1 < s.len());
            assert(parse_str_body(s, i) == Some((
                seq![c0] + t2,
                i2 + esc_string(t2).len() + 1,
            )));
        } else {
            assert(ec.len() == 1);
            assert(s[i] == c0);
            assert(s[i] != '"' && s[i] != '\\');
            assert(parse_str_body(s, i) == Some((
                seq![c0] + t2,
                i2 + esc_string(t2).len() + 1,
            )));
        }
    }
}

/// A quoted string standing at its position parses back to itself.
proof fn lemma_parse_string_inv(s: Seq<char>, i: int, t: Seq<char>, rest: Seq<char>)
    requires
        0 <= i <= s.len(),
        suffix(s, i) == json_string(t) + rest,
    ensures
        parse_string(s, i) == Some((t, i + json_string(t).len() as int)),
{
    assert(suffix(s, i) =~= seq!['"'] + (esc_string(t) + seq!['"'] + rest));
    lemma_suffix_split(s, i, seq!['"'], esc_string(t) + seq!['"'] + rest);
    assert(s[i] == '"');
    lemma_parse_str_body_inv(s, i + 1, t, rest);
}

/// Decimal digits are digits.
proof fn lemma_dec_nat_digits(n: nat)
    ensures
        dec_nat(n).len() >= 1,
        forall|j: int| 0 <= j < dec_nat(n).len() ==> is_digit(#[trigger] dec_nat(n)[j]),
    decreases n,
{
    if n >= 10 {
        lemma_dec_nat_digits(n / 10);
    }
}

/// The digits of `dec_nat(n)`, read back, give `n`.
proof fn lemma_digits_val_of_dec(s: Seq<char>, i: int, n: nat)
    requires
        0 <= i,
        i + dec_nat(n).len() <= s.len(),
        s.subrange(i, i + dec_nat(n).len() as int) == dec_nat(n),
    ensures
        digits_val(s, i, i + dec_nat(n).len() as int) == n,
    decreases n,
{
    let d = dec_nat(n);
    if n < 10 {
        assert(s[i] == d[0]);
        assert(digits_val(s, i, i + 1) == digits_val(s, i, i) * 10 + digit_val(s[i]));
        assert(digit_val(digit_char(n)) == n);
    } else {
        let m = dec_nat(n / 10);
        assert(d == m.push(digit_char(n % 10)));
        assert(s.subrange(i, i + m.len() as int) =~= m) by {
            assert forall|j: int| 0 <= j < m.len() implies s.subrange(
                i,
                i + m.len() as int,
            )[j] == m[j] by {
                assert(s.subrange(i, i + d.len() as int)[j] == s[i + j]);
                assert(d[j] == m[j]);
            }
        }
        lemma_digits_val_of_dec(s, i, n / 10);
        let last = i + d.len() - 1;
        assert(s[last] == d[d.len() - 1]) by {
            assert(s.subrange(i, i + d.len() as int)[d.len() - 1] == s[last]);
        }
        assert(d[d.len() - 1] == digit_char(n % 10));
        assert(digit_val(digit_char(n % 10)) == n % 10);
        assert(digits_val(s, i, i + d.len() as int) == digits_val(s, i, last) * 10 + digit_val(
            s[last],
        ));
        assert(digits_val(s, i, last) == n / 10);
        assert(n / 10 * 10 + n % 10 == n);
    }
}

/// A bounded decimal number standing at its position, not followed by a
/// digit, parses back to its value.
proof fn lemma_parse_number_inv(s: Seq<char>, i: int, n: nat, rest: Seq<char>)
    requires
        0 <= i <= s.len(),
        suffix(s, i) == dec_nat(n) + rest,
        n <= usize::MAX as nat,
        rest.len() == 0 || !is_digit(rest[0]),
    ensures
        parse_number(s, i) == Some((n, i + dec_nat(n).len() as int)),
{
    let d = dec_nat(n);
    lemma_dec_nat_digits(n);
    lemma_suffix_split(s, i, d, rest);
    let j = i + d.len();
    assert forall|k: int| i <= k < j implies is_digit(#[trigger] s[k]) by {
        assert(s[k] == d[k - i]);
    }
    if j < s.len() {
        assert(s[j] == rest[0]) by {
            assert(suffix(s, j)[0] == s[j]);
        }
    }
    lemma_digits_end_at(s, i, j);
    lemma_digits_val_of_dec(s, i, n);
    assert(is_digit(s[i])) by {
        assert(s[i] == d[0]);
    }
}

/// An output field standing at its position parses back to itself.
proof fn lemma_parse_output_inv(s: Seq<char>, i: int, o: Option<Seq<char>>, rest: Seq<char>)
    requires
        0 <= i <= s.len(),
        suffix(s, i) == json_output(o) + rest,
    ensures
        parse_output(s, i) == Some((o, i + json_output(o).len() as int)),
{
    match o {
        None => {
            lemma_parse_lit_inv(s, i, lit_null(), rest);
        },
        Some(t) => {
            lemma_suffix_split(s, i, json_output(o), rest);
            assert(s[i] == '"') by {
                assert(json_output(o)[0] == '"');
            }
            assert(parse_lit(s, i, lit_null()) is None) by {
                if parse_lit(s, i, lit_null()) is Some {
                    assert(s.subrange(i, i + 4) == lit_null());
                    assert(s[i] == 'n') by {
                        assert(s.subrange(i, i + 4)[0] == s[i]);
                    }
                }
            }
            lemma_parse_string_inv(s, i, t, rest);
        },
    }
}

/// A command object standing at its position parses back to itself.
#[verifier::rlimit(100)]
#[verifier::spinoff_prover]
proof fn lemma_parse_cmd_inv(s: Seq<char>, i: int, c: CmdView, rest: Seq<char>)
    requires
        0 <= i <= s.len(),
        suffix(s, i) == json_cmd(c) + rest,
        c.id <= usize::MAX as nat,
    ensures
        parse_cmd(s, i) == Some((c, i + json_cmd(c).len() as int)),
        i < i + json_cmd(c).len(),
{
    let part1 = json_string(c.input) + lit_output_key() + json_output(c.output) + lit_id_key()
        + dec_nat(c.id) + seq!['}'] + rest;
    assert(suffix(s, i) =~= lit_input_key() + part1);
    lemma_parse_lit_inv(s, i, lit_input_key(), part1);
    let j1 = i + lit_input_key().len();

    let part2 = lit_output_key() + json_output(c.output) + lit_id_key() + dec_nat(c.id)
        + seq!['}'] + rest;
    assert(suffix(s, j1) =~= json_string(c.input) + part2);
    lemma_parse_string_inv(s, j1, c.input, part2);
    lemma_suffix_split(s, j1, json_string(c.input), part2);
    let j2 = j1 + json_string(c.input).len();

    let part3 = json_output(c.output) + lit_id_key() + dec_nat(c.id) + seq!['}'] + rest;
    assert(suffix(s, j2) =~= lit_output_key() + part3);
    lemma_parse_lit_inv(s, j2, lit_output_key(), part3);
    let j3 = j2 + lit_output_key().len();

    let part4 = lit_id_key() + dec_nat(c.id) + seq!['}'] + rest;
    assert(suffix(s, j3) =~= json_output(c.output) + part4);
    lemma_parse_output_inv(s, j3, c.output, part4);
    lemma_suffix_split(s, j3, json_output(c.output), part4);
    let j4 = j3 + json_output(c.output).len();

    let part5 = dec_nat(c.id) + seq!['}'] + rest;
    assert(suffix(s, j4) =~= lit_id_key() + part5);
    lemma_parse_lit_inv(s, j4, lit_id_key(), part5);
    let j5 = j4 + lit_id_key().len();

    let part6 = seq!['}'] + rest;
    assert(suffix(s, j5) =~= dec_nat(c.id) + part6);
    assert(part6[0] == '}');
    lemma_parse_number_inv(s, j5, c.id, part6);
    lemma_suffix_split(s, j5, dec_nat(c.id), part6);
    let j6 = j5 + dec_nat(c.id).len();

    assert(s[j6] == '}') by {
        assert(suffix(s, j6)[0] == s[j6]);
    }
    assert(j6 < s.len());
    assert(parse_cmd(s, i) == Some((
        CmdView { input: c.input, output: c.output, id: c.id },
        j6 + 1,
    )));
    assert((CmdView { input: c.input, output: c.output, id: c.id }) == c);
    assert(j6 + 1 == i + json_cmd(c).len());
}

/// What follows the first command of a nonempty list: `,` and a command for
/// each further element, then `]`.
pub open spec fn json_cmds_tail(cs: Seq<CmdView>) -> Seq<char>
    decreases cs.len(),
{
    if cs.len() == 0 {
        seq![']']
    } else {
        seq![','] + json_cmd(cs[0]) + json_cmds_tail(cs.drop_first())
    }
}

/// The bracketed list decomposes into its first command and its tail.
proof fn lemma_json_cmds_decompose(cs: Seq<CmdView>)
    ensures
        cs.len() == 0 ==> json_cmds(cs) == seq!['['] + seq![']'],
        cs.len() > 0 ==> json_cmds(cs) == seq!['['] + json_cmd(cs[0]) + json_cmds_tail(
            cs.drop_first(),
        ),
    decreases cs.len(),
{
    if cs.len() == 0 {
        assert(json_cmds(cs) =~= seq!['['] + seq![']']);
    } else {
        lemma_json_cmds_body_tail(cs);
        assert(json_cmds(cs) =~= seq!['['] + (json_cmds_body(cs) + seq![']']));
        assert(seq!['['] + (json_cmds_body(cs) + seq![']']) =~= seq!['['] + json_cmd(cs[0])
            + json_cmds_tail(cs.drop_first()));
    }
}

/// The comma-separated body plus the closing bracket equals the first
/// command plus the tail.
proof fn lemma_json_cmds_body_tail(cs: Seq<CmdView>)
    requires
        cs.len() > 0,
    ensures
        json_cmds_body(cs) + seq![']'] == json_cmd(cs[0]) + json_cmds_tail(cs.drop_first()),
    decreases cs.len(),
{
    if cs.len() == 1 {
        assert(json_cmds_body(cs) + seq![']'] =~= json_cmd(cs[0]) + json_cmds_tail(
            cs.drop_first(),
        ));
    } else {
        let cs2 = cs.drop_first();
        lemma_json_cmds_body_tail(cs2);
        assert(cs2[0] == cs[1]);
        assert(json_cmds_body(cs) + seq![']'] =~= json_cmd(cs[0]) + (seq![','] + (
        json_cmds_body(cs2) + seq![']'])));
        assert(seq![','] + (json_cmds_body(cs2) + seq![']']) =~= seq![','] + json_cmd(cs2[0])
            + json_cmds_tail(cs2.drop_first()));
    }
}

/// The tail of a command list standing at its position parses back to the
/// remaining commands.
#[verifier::rlimit(100)]
#[verifier::spinoff_prover]
proof fn lemma_parse_cmds_rest_inv(s: Seq<char>, i: int, cs: Seq<CmdView>, rest: Seq<char>)
    requires
        0 <= i <= s.len(),
        suffix(s, i) == json_cmds_tail(cs) + rest,
        cmds_wf(cs),
    ensures
        parse_cmds_rest(s, i) == Some((cs, i + json_cmds_tail(cs).len() as int)),
    decreases cs.len(), 0int,
{
    if cs.len() == 0 {
        assert(json_cmds_tail(cs) + rest =~= seq![']'] + rest);
        lemma_suffix_split(s, i, seq![']'], rest);
        assert(s[i] == ']');
        assert(cs =~= Seq::<CmdView>::empty());
    } else {
        let c0 = cs[0];
        let cs2 = cs.drop_first();
        assert(suffix(s, i) =~= seq![','] + (json_cmd(c0) + (json_cmds_tail(cs2) + rest)));
        lemma_suffix_split(s, i, seq![','], json_cmd(c0) + (json_cmds_tail(cs2) + rest));
        assert(s[i] == ',');
        assert(s[i] != ']');
        assert(c0.id <= usize::MAX as nat);
        lemma_cmds_wf_drop_first(cs);
        lemma_parse_cmd_then_tail(s, i + 1, c0, cs2, rest);
        assert(seq![c0] + cs2 =~= cs);
    }
}

/// Bounded ids carry over to a list's tail.
proof fn lemma_cmds_wf_drop_first(cs: Seq<CmdView>)
    requires
        cs.len() > 0,
        cmds_wf(cs),
    ensures
        cmds_wf(cs.drop_first()),
{
    let cs2 = cs.drop_first();
    assert forall|k: int| 0 <= k < cs2.len() implies (#[trigger] cs2[k]).id
        <= usize::MAX as nat by {
        assert(cs2[k] == cs[k + 1]);
    }
}

/// One command and the remaining tail of the list, parsed in sequence.
#[verifier::rlimit(100)]
#[verifier::spinoff_prover]
proof fn lemma_parse_cmd_then_tail(
    s: Seq<char>,
    i: int,
    c0: CmdView,
    cs2: Seq<CmdView>,
    rest: Seq<char>,
)
    requires
        0 <= i <= s.len(),
        suffix(s, i) == json_cmd(c0) + (json_cmds_tail(cs2) + rest),
        c0.id <= usize::MAX as nat,
        cmds_wf(cs2),
    ensures
        parse_cmd(s, i) == Some((c0, i + json_cmd(c0).len() as int)),
        parse_cmds_rest(s, i + json_cmd(c0).len() as int) == Some((
            cs2,
            i + json_cmd(c0).len() + json_cmds_tail(cs2).len() as int,
        )),
        s[i] == '{',
        i < i + json_cmd(c0).len(),
    decreases cs2.len(), 1int,
{
    lemma_parse_cmd_inv(s, i, c0, json_cmds_tail(cs2) + rest);
    lemma_suffix_split(s, i, json_cmd(c0), json_cmds_tail(cs2) + rest);
    assert(s[i] == json_cmd(c0)[0]);
    assert(json_cmd(c0)[0] == lit_input_key()[0]);
    let j = i + json_cmd(c0).len();
    lemma_parse_cmds_rest_inv(s, j, cs2, rest);
}

/// A bracketed command list standing at its position parses back to the
/// list.
#[verifier::rlimit(100)]
#[verifier::spinoff_prover]
proof fn lemma_parse_cmds_inv(s: Seq<char>, i: int, cs: Seq<CmdView>, rest: Seq<char>)
    requires
        0 <= i <= s.len(),
        suffix(s, i) == json_cmds(cs) + rest,
        cmds_wf(cs),
    ensures
        parse_cmds(s, i) == Some((cs, i + json_cmds(cs).len() as int)),
    decreases cs.len(),
{
    lemma_json_cmds_decompose(cs);
    if cs.len() == 0 {
        assert(suffix(s, i) =~= seq!['['] + (seq![']'] + rest));
        lemma_suffix_split(s, i, seq!['['], seq![']'] + rest);
        assert(s[i] == '[');
        assert(s[i + 1] == ']') by {
            assert(suffix(s, i + 1)[0] == s[i + 1]);
        }
        assert(cs =~= Seq::<CmdView>::empty());
    } else {
        let c0 = cs[0];
        let cs2 = cs.drop_first();
        assert(suffix(s, i) =~= seq!['['] + (json_cmd(c0) + (json_cmds_tail(cs2) + rest)));
        lemma_suffix_split(s, i, seq!['['], json_cmd(c0) + (json_cmds_tail(cs2) + rest));
        assert(s[i] == '[');
        assert(c0.id <= usize::MAX as nat);
        lemma_cmds_wf_drop_first(cs);
        lemma_parse_cmd_then_tail(s, i + 1, c0, cs2, rest);
        assert(s[i + 1] == '{');
        assert(seq![c0] + cs2 =~= cs);
    }
}

/// Round trip for the agent-to-controller envelope: decoding an encoded
/// envelope gives the envelope back, for any command list (empty included)
/// and any outputs (absent included).
pub proof fn lemma_round_trip_c2s(m: C2sView)
    requires
        cmds_wf(m.commands),
    ensures
        parse_c2s(json_c2s(m)) == Some(m),
{
    let s = json_c2s(m);
    let part1 = json_cmds(m.commands) + lit_id_key() + json_string(m.id) + seq!['}'];
    assert(suffix(s, 0) =~= lit_commands_key() + part1);
    lemma_parse_lit_inv(s, 0, lit_commands_key(), part1);
    let j1 = lit_commands_key().len() as int;

    let part2 = lit_id_key() + json_string(m.id) + seq!['}'];
    assert(suffix(s, j1) =~= json_cmds(m.commands) + part2);
    lemma_parse_cmds_inv(s, j1, m.commands, part2);
    lemma_suffix_split(s, j1, json_cmds(m.commands), part2);
    let j2 = j1 + json_cmds(m.commands).len();

    let part3 = json_string(m.id) + seq!['}'];
    assert(suffix(s, j2) =~= lit_id_key() + part3);
    lemma_parse_lit_inv(s, j2, lit_id_key(), part3);
    let j3 = j2 + lit_id_key().len();

    assert(suffix(s, j3) =~= json_string(m.id) + seq!['}']);
    lemma_parse_string_inv(s, j3, m.id, seq!['}']);
    lemma_suffix_split(s, j3, json_string(m.id), seq!['}']);
    let j4 = j3 + json_string(m.id).len();

    assert(s[j4] == '}') by {
        assert(suffix(s, j4)[0] == s[j4]);
    }
    assert(j4 + 1 == s.len());
    assert(parse_c2s(s) == Some(C2sView { commands: m.commands, id: m.id }));
    assert((C2sView { commands: m.commands, id: m.id }) == m);
}

/// Round trip for the controller-to-agent envelope.
pub proof fn lemma_round_trip_s2c(m: S2cView)
    requires
        cmds_wf(m.commands),
    ensures
        parse_s2c(json_s2c(m)) == Some(m),
{
    let s = json_s2c(m);
    let part1 = json_cmds(m.commands) + seq!['}'];
    assert(suffix(s, 0) =~= lit_commands_key() + part1);
    lemma_parse_lit_inv(s, 0, lit_commands_key(), part1);
    let j1 = lit_commands_key().len() as int;

    assert(suffix(s, j1) =~= json_cmds(m.commands) + seq!['}']);
    lemma_parse_cmds_inv(s, j1, m.commands, seq!['}']);
    lemma_suffix_split(s, j1, json_cmds(m.commands), seq!['}']);
    let j2 = j1 + json_cmds(m.commands).len();

    assert(s[j2] == '}') by {
        assert(suffix(s, j2)[0] == s[j2]);
    }
    assert(j2 + 1 == s.len());
    assert(parse_s2c(s) == Some(S2cView { commands: m.commands }));
    assert((S2cView { commands: m.commands }) == m);
}

/// The ids of a real envelope always fit a `usize`.
pub proof fn lemma_view_cmds_wf(cmds: Seq<Command>)
    ensures
        cmds_wf(cmds.map_values(|c: Command| c@)),
{
    let views = cmds.map_values(|c: Command| c@);
    assert forall|j: int| 0 <= j < views.len() implies (#[trigger] views[j]).id
        <= usize::MAX as nat by {
        assert(views[j] == cmds[j]@);
    }
}

/// A decode failure: the text did not follow the wire grammar.
#[derive(Clone, Copy, Debug)]
pub struct JsonError;

/// Why a datagram could not be decoded: it was not valid text, or it was
/// text but not a valid envelope.
#[derive(Clone, Copy, Debug, PartialEq, Eq, Structural)]
pub enum DecodeError {
    Bytes,
    Json,
}

/// Relies on String::from_utf8: succeeds exactly on valid UTF-8 and then
/// returns the decoded text.
#[verifier::external_body]
fn bytes_to_string(data: Vec<u8>) -> (r: Option<String>)
    ensures
        r is Some <==> vstd::utf8::valid_utf8(data@),
        r is Some ==> r.unwrap()@ == vstd::utf8::decode_utf8(data@),
{
    match String::from_utf8(data) {
        Ok(s) => Some(s),
        Err(_) => None,
    }
}

/// Encode a reply as the bytes that go on the wire.
pub fn encode_outgoing(msg: &ServerToClient) -> (r: Vec<u8>)
    ensures
        r@ == vstd::utf8::encode_utf8(json_s2c(msg@)),
{
    let text = msg.to_json();
    vstd::slice::slice_to_vec(text.as_str().as_bytes())
}

/// Decode a datagram into an agent report: [`DecodeError::Bytes`] exactly
/// when the bytes are not valid text, [`DecodeError::Json`] exactly when the
/// text does not spell an envelope.
pub fn decode_incoming(data: Vec<u8>) -> (r: Result<ClientToServer, DecodeError>)
    ensures
        r is Ok <==> vstd::utf8::valid_utf8(data@) && parse_c2s(
            vstd::utf8::decode_utf8(data@),
        ) is Some,
        r is Ok ==> r.unwrap()@ == parse_c2s(vstd::utf8::decode_utf8(data@)).unwrap(),
        !vstd::utf8::valid_utf8(data@) ==> r == Err::<ClientToServer, DecodeError>(
            DecodeError::Bytes,
        ),
        vstd::utf8::valid_utf8(data@) && parse_c2s(vstd::utf8::decode_utf8(data@)) is None
            ==> r == Err::<ClientToServer, DecodeError>(DecodeError::Json),
{
    match bytes_to_string(data) {
        None => Err(DecodeError::Bytes),
        Some(text) => match ClientToServer::from_str(text) {
            Ok(m) => Ok(m),
            Err(_) => Err(DecodeError::Json),
        },
    }
}

/// Decode a controller reply on the agent side, with the same error split.
pub fn decode_reply(data: Vec<u8>) -> (r: Result<ServerToClient, DecodeError>)
    ensures
        r is Ok <==> vstd::utf8::valid_utf8(data@) && parse_s2c(
            vstd::utf8::decode_utf8(data@),
        ) is Some,
        r is Ok ==> r.unwrap()@ == parse_s2c(vstd::utf8::decode_utf8(data@)).unwrap(),
        !vstd::utf8::valid_utf8(data@) ==> r == Err::<ServerToClient, DecodeError>(
            DecodeError::Bytes,
        ),
        vstd::utf8::valid_utf8(data@) && parse_s2c(vstd::utf8::decode_utf8(data@)) is None
            ==> r == Err::<ServerToClient, DecodeError>(DecodeError::Json),
{
    match bytes_to_string(data) {
        None => Err(DecodeError::Bytes),
        Some(text) => match ServerToClient::from_str(text) {
            Ok(m) => Ok(m),
            Err(_) => Err(DecodeError::Json),
        },
    }
}

/// Round trip over the wire, controller to agent: the encoded reply decodes
/// back to itself, bytes included.
pub proof fn lemma_round_trip_wire(m: S2cView)
    requires
        cmds_wf(m.commands),
    ensures
        vstd::utf8::valid_utf8(vstd::utf8::encode_utf8(json_s2c(m))),
        parse_s2c(vstd::utf8::decode_utf8(vstd::utf8::encode_utf8(json_s2c(m)))) == Some(m),
{
    vstd::utf8::encode_utf8_valid_utf8(json_s2c(m));
    vstd::utf8::encode_utf8_decode_utf8(json_s2c(m));
    lemma_round_trip_s2c(m);
}

/// Round trip over the wire, agent to controller.
pub proof fn lemma_round_trip_wire_c2s(m: C2sView)
    requires
        cmds_wf(m.commands),
    ensures
        vstd::utf8::valid_utf8(vstd::utf8::encode_utf8(json_c2s(m))),
        parse_c2s(vstd::utf8::decode_utf8(vstd::utf8::encode_utf8(json_c2s(m)))) == Some(m),
{
    vstd::utf8::encode_utf8_valid_utf8(json_c2s(m));
    vstd::utf8::encode_utf8_decode_utf8(json_c2s(m));
    lemma_round_trip_c2s(m);
}

impl ClientToServer {
    /// Parse an agent-to-controller envelope from its textual form. Succeeds
    /// exactly on the texts the wire grammar admits, and then returns the
    /// envelope the text spells.
    pub fn from_str(string: String) -> (r: Result<ClientToServer, JsonError>)
        ensures
            r is Ok <==> parse_c2s(string@) is Some,
            r is Ok ==> r.unwrap()@ == parse_c2s(string@).unwrap(),
    {
        let s = string.as_str();
        let commands_key = "{\"commands\":";
        let id_key = ",\"id\":";
        proof {
            reveal_strlit("{\"commands\":");
            reveal_strlit(",\"id\":");
            assert(commands_key@ =~= lit_commands_key());
            assert(id_key@ =~= lit_id_key());
        }
        let j1 = match eat_lit(s, 0, commands_key) {
            Some(j) => j,
            None => {
                return Err(JsonError);
            },
        };
        let (commands, j2) = match parse_cmds_at(s, j1) {
            Some(p) => p,
            None => {
                return Err(JsonError);
            },
        };
        let j3 = match eat_lit(s, j2, id_key) {
            Some(j) => j,
            None => {
                return Err(JsonError);
            },
        };
        let (id, j4) = match parse_string_at(s, j3) {
            Some(p) => p,
            None => {
                return Err(JsonError);
            },
        };
        let n = s.unicode_len();
        if j4 < n && j4 + 1 == n && s.get_char(j4) == '}' {
            Ok(ClientToServer { commands, id })
        } else {
            Err(JsonError)
        }
    }
}

impl ServerToClient {
    /// Parse a controller-to-agent envelope from its textual form. Succeeds
    /// exactly on the texts the wire grammar admits, and then returns the
    /// envelope the text spells.
    pub fn from_str(string: String) -> (r: Result<ServerToClient, JsonError>)
        ensures
            r is Ok <==> parse_s2c(string@) is Some,
            r is Ok ==> r.unwrap()@ == parse_s2c(string@).unwrap(),
    {
        let s = string.as_str();
        let commands_key = "{\"commands\":";
        proof {
            reveal_strlit("{\"commands\":");
            assert(commands_key@ =~= lit_commands_key());
        }
        let j1 = match eat_lit(s, 0, commands_key) {
            Some(j) => j,
            None => {
                return Err(JsonError);
            },
        };
        let (commands, j2) = match parse_cmds_at(s, j1) {
            Some(p) => p,
            None => {
                return Err(JsonError);
            },
        };
        let n = s.unicode_len();
        if j2 < n && j2 + 1 == n && s.get_char(j2) == '}' {
            Ok(ServerToClient { commands })
        } else {
            Err(JsonError)
        }
    }
}

} // verus!

