//! What the tool prints: the JSON list of results, the one-line summary of
//! each port, and the messages of the argument errors.

use vstd::prelude::*;

use crate::number::{decimal, digit_value, push_decimal};
use crate::port::{KillResult, PortParseError, PortParseFailure};
use crate::text::chars_of;

verus! {

broadcast use vstd::string::group_string_axioms;

/// `String` from its characters: `String::from_iter`.
#[verifier::external_body]
fn string_from_chars(v: Vec<char>) -> (s: String)
    ensures
        s@ == v@,
{
    String::from_iter(v)
}

/// `parts` with `sep` between each two of them, as `[T]::join` gives it.
pub open spec fn join(parts: Seq<Seq<char>>, sep: Seq<char>) -> Seq<char>
    decreases parts.len(),
{
    if parts.len() == 0 {
        seq![]
    } else if parts.len() == 1 {
        parts[0]
    } else {
        join(parts.drop_last(), sep) + sep + parts.last()
    }
}

/// A hexadecimal digit, lower case.
pub open spec fn hex_digit(d: nat) -> char {
    if d < 10 {
        (d + 48) as char
    } else {
        (d + 87) as char
    }
}

/// How one character stands inside a JSON string: `"` and `\` behind a
/// backslash, the control characters below U+0020 as `\n`, `\r`, `\t`,
/// `\b`, `\f` or `\u00XX`, every other character as it is.
pub open spec fn json_char(c: char) -> Seq<char> {
    let n = c as u32;
    if c == '"' {
        seq!['\\', '"']
    } else if c == '\\' {
        seq!['\\', '\\']
    } else if n == 10 {
        seq!['\\', 'n']
    } else if n == 13 {
        seq!['\\', 'r']
    } else if n == 9 {
        seq!['\\', 't']
    } else if n == 8 {
        seq!['\\', 'b']
    } else if n == 12 {
        seq!['\\', 'f']
    } else if n < 0x20 {
        seq!['\\', 'u', '0', '0', hex_digit((n / 16) as nat), hex_digit((n % 16) as nat)]
    } else {
        seq![c]
    }
}

/// The body of a JSON string literal whose value is `s`.
pub open spec fn json_escape(s: Seq<char>) -> Seq<char>
    decreases s.len(),
{
    if s.len() == 0 {
        seq![]
    } else {
        json_escape(s.drop_last()) + json_char(s.last())
    }
}

pub open spec fn pid_texts(pids: Seq<u32>) -> Seq<Seq<char>> {
    pids.map_values(|p: u32| decimal(p as nat))
}

pub open spec fn error_text(error: Option<String>) -> Option<Seq<char>> {
    match error {
        Some(e) => Some(e@),
        None => None,
    }
}

/// The JSON object of one result.
pub open spec fn json_entry(port: u16, pids: Seq<u32>, error: Option<Seq<char>>) -> Seq<char> {
    "{\"port\":"@ + decimal(port as nat) + ",\"pids\":["@ + join(pid_texts(pids), seq![','])
        + "],\"error\":"@ + match error {
        Some(e) => seq!['"'] + json_escape(e) + seq!['"'],
        None => "null"@,
    } + seq!['}']
}

pub open spec fn result_json(r: KillResult) -> Seq<char> {
    json_entry(r.port, r.pids@, error_text(r.error))
}

/// The JSON array of all results.
pub open spec fn results_json(results: Seq<KillResult>) -> Seq<char> {
    seq!['['] + join(results.map_values(|r: KillResult| result_json(r)), seq![',']) + seq![']']
}

proof fn lemma_join_push(parts: Seq<Seq<char>>, x: Seq<char>, sep: Seq<char>)
    ensures
        join(parts.push(x), sep) == if parts.len() == 0 {
            x
        } else {
            join(parts, sep) + sep + x
        },
{
    assert(parts.push(x).drop_last() =~= parts);
}

fn push_str(out: &mut Vec<char>, s: &str)
    ensures
        final(out)@ == old(out)@ + s@,
{
    let mut v = chars_of(s);
    out.append(&mut v);
}

fn hex_digit_char(d: u32) -> (c: char)
    requires
        d < 16,
    ensures
        c == hex_digit(d as nat),
{
    if d < 10 {
        ((d + 48) as u8) as char
    } else {
        ((d + 87) as u8) as char
    }
}

/// Appends `json_char(c)`.
fn push_json_char(out: &mut Vec<char>, c: char)
    ensures
        final(out)@ == old(out)@ + json_char(c),
{
    let n = c as u32;
    let ghost start = out@;
    if c == '"' {
        out.push('\\');
        out.push('"');
    } else if c == '\\' {
        out.push('\\');
        out.push('\\');
    } else if n == 10 {
        out.push('\\');
        out.push('n');
    } else if n == 13 {
        out.push('\\');
        out.push('r');
    } else if n == 9 {
        out.push('\\');
        out.push('t');
    } else if n == 8 {
        out.push('\\');
        out.push('b');
    } else if n == 12 {
        out.push('\\');
        out.push('f');
    } else if n < 0x20 {
        out.push('\\');
        out.push('u');
        out.push('0');
        out.push('0');
        let hi = hex_digit_char(n / 16);
        let lo = hex_digit_char(n % 16);
        out.push(hi);
        out.push(lo);
    } else {
        out.push(c);
    }
    assert(out@ =~= start + json_char(c));
}

/// Appends `s` escaped as the body of a JSON string.
fn push_escaped(out: &mut Vec<char>, s: &str)
    ensures
        final(out)@ == old(out)@ + json_escape(s@),
{
    let v = chars_of(s);
    let ghost start = out@;
    assert(v@.take(0) =~= Seq::<char>::empty());
    for i in 0..v.len()
        invariant
            v@ == s@,
            out@ == start + json_escape(v@.take(i as int)),
    {
        proof {
            assert(v@.take(i + 1).drop_last() =~= v@.take(i as int));
        }
        push_json_char(out, v[i]);
        assert(out@ =~= start + json_escape(v@.take(i + 1)));
    }
    assert(v@.take(v.len() as int) =~= v@);
}

/// Appends the decimals of `pids`, `sep` between each two.
fn push_pid_list(out: &mut Vec<char>, pids: &Vec<u32>, sep: &str)
    ensures
        final(out)@ == old(out)@ + join(pid_texts(pids@), sep@),
{
    let ghost start = out@;
    assert(pid_texts(pids@.take(0)) =~= Seq::<Seq<char>>::empty());
    for i in 0..pids.len()
        invariant
            out@ == start + join(pid_texts(pids@.take(i as int)), sep@),
    {
        proof {
            assert(pid_texts(pids@.take(i + 1)) =~= pid_texts(pids@.take(i as int)).push(
                decimal(pids@[i as int] as nat),
            ));
            lemma_join_push(
                pid_texts(pids@.take(i as int)),
                decimal(pids@[i as int] as nat),
                sep@,
            );
        }
        if i > 0 {
            push_str(out, sep);
        }
        push_decimal(out, pids[i] as u64);
    }
    assert(pids@.take(pids.len() as int) =~= pids@);
}

fn push_result(out: &mut Vec<char>, r: &KillResult)
    ensures
        final(out)@ == old(out)@ + result_json(*r),
{
    let ghost start = out@;
    push_str(out, "{\"port\":");
    push_decimal(out, r.port as u64);
    push_str(out, ",\"pids\":[");
    push_pid_list(out, &r.pids, ",");
    proof {
        reveal_strlit(",");
        assert(","@ =~= seq![',']);
    }
    push_str(out, "],\"error\":");
    match &r.error {
        Some(e) => {
            out.push('"');
            push_escaped(out, e.as_str());
            out.push('"');
        },
        None => {
            push_str(out, "null");
        },
    }
    out.push('}');
    assert(out@ =~= start + result_json(*r));
}

/// The results as a JSON array of objects with `port`, `pids` and `error`.
pub fn serde_json_minimal(results: &[KillResult]) -> (s: String)
    ensures
        s@ == results_json(results@),
{
    let mut out: Vec<char> = Vec::new();
    out.push('[');
    let ghost entries = results@.map_values(|r: KillResult| result_json(r));
    assert(entries.take(0) =~= Seq::<Seq<char>>::empty());
    for i in 0..results.len()
        invariant
            entries == results@.map_values(|r: KillResult| result_json(r)),
            out@ == seq!['['] + join(entries.take(i as int), seq![',']),
    {
        proof {
            assert(entries.take(i + 1) =~= entries.take(i as int).push(entries[i as int]));
            lemma_join_push(entries.take(i as int), entries[i as int], seq![',']);
        }
        if i > 0 {
            out.push(',');
        }
        push_result(&mut out, &results[i]);
    }
    assert(entries.take(results.len() as int) =~= entries);
    out.push(']');
    string_from_chars(out)
}

/// The line printed for one result, and whether it goes to standard error.
pub open spec fn summary_line(r: KillResult, dry_run: bool) -> (bool, Seq<char>) {
    let head = "Port "@ + decimal(r.port as nat) + ": "@;
    match r.error {
        Some(e) => (true, head + "error - "@ + e@),
        None => if r.pids@.len() == 0 {
            (true, head + "no process found"@)
        } else {
            (
                false,
                head + (if dry_run {
                    "would kill"@
                } else {
                    "killed"@
                }) + " PID "@ + join(pid_texts(r.pids@), ", "@),
            )
        },
    }
}

impl KillResult {
    /// The line reporting this result: an error or an empty search goes to
    /// standard error, the processes found (or killed) to standard output.
    pub fn summary(&self, dry_run: bool) -> (r: (bool, String))
        ensures
            (r.0, r.1@) == summary_line(*self, dry_run),
            self.error is None ==> (r.0 <==> self.pids@.len() == 0),
            self.error is None && self.pids@.len() > 0 ==> r.1@ == "Port "@ + decimal(
                self.port as nat,
            ) + ": "@ + (if dry_run {
                "would kill"@
            } else {
                "killed"@
            }) + " PID "@ + join(pid_texts(self.pids@), ", "@),
    {
        let mut out: Vec<char> = Vec::new();
        push_str(&mut out, "Port ");
        push_decimal(&mut out, self.port as u64);
        push_str(&mut out, ": ");
        let to_stderr = match &self.error {
            Some(e) => {
                push_str(&mut out, "error - ");
                push_str(&mut out, e.as_str());
                true
            },
            None => {
                if self.pids.len() == 0 {
                    push_str(&mut out, "no process found");
                    true
                } else {
                    if dry_run {
                        push_str(&mut out, "would kill");
                    } else {
                        push_str(&mut out, "killed");
                    }
                    push_str(&mut out, " PID ");
                    push_pid_list(&mut out, &self.pids, ", ");
                    false
                }
            },
        };
        let text = string_from_chars(out);
        assert((to_stderr, text@) == summary_line(*self, dry_run));
        proof {
            lemma_summary_lists_pids(*self, dry_run);
        }
        (to_stderr, text)
    }
}

/// The message of an argument error, as the tool prints it.
pub open spec fn failure_message(f: PortParseFailure) -> Seq<char> {
    match f {
        PortParseFailure::Invalid(s) => "invalid port: '"@ + s + "'"@,
        PortParseFailure::Zero => "port 0 is not valid"@,
        PortParseFailure::InvalidRange(s, e) => "invalid range: "@ + decimal(s as nat) + " > "@
            + decimal(e as nat),
        PortParseFailure::RangeTooLarge(s, e) => "range "@ + decimal(s as nat) + "-"@ + decimal(
            e as nat,
        ) + " too large (max 1000 ports)"@,
    }
}

impl PortParseError {
    /// The message of this error.
    pub fn message(&self) -> (m: String)
        ensures
            m@ == failure_message(self@),
    {
        let mut out: Vec<char> = Vec::new();
        match self {
            PortParseError::Invalid(s) => {
                push_str(&mut out, "invalid port: '");
                push_str(&mut out, s.as_str());
                push_str(&mut out, "'");
            },
            PortParseError::Zero => {
                push_str(&mut out, "port 0 is not valid");
            },
            PortParseError::InvalidRange(s, e) => {
                push_str(&mut out, "invalid range: ");
                push_decimal(&mut out, *s as u64);
                push_str(&mut out, " > ");
                push_decimal(&mut out, *e as u64);
            },
            PortParseError::RangeTooLarge(s, e) => {
                push_str(&mut out, "range ");
                push_decimal(&mut out, *s as u64);
                push_str(&mut out, "-");
                push_decimal(&mut out, *e as u64);
                push_str(&mut out, " too large (max 1000 ports)");
            },
        }
        assert(out@ =~= failure_message(self@));
        string_from_chars(out)
    }
}

/// A result without error goes to standard output exactly when processes
/// were found, and then its line lists every pid, joined by `, `, after the
/// action; "no process found" is said only when no process was found.
pub proof fn lemma_summary_lists_pids(r: KillResult, dry_run: bool)
    ensures
        r.error is None ==> (summary_line(r, dry_run).0 <==> r.pids@.len() == 0),
        r.error is None && r.pids@.len() == 0 ==> summary_line(r, dry_run).1 == "Port "@
            + decimal(r.port as nat) + ": no process found"@,
        r.error is None && r.pids@.len() > 0 ==> summary_line(r, dry_run).1 == "Port "@ + decimal(
            r.port as nat,
        ) + ": "@ + (if dry_run {
            "would kill"@
        } else {
            "killed"@
        }) + " PID "@ + join(pid_texts(r.pids@), ", "@),
        r.error matches Some(e) ==> summary_line(r, dry_run) == (true, "Port "@ + decimal(
            r.port as nat,
        ) + ": error - "@ + e@),
{
    reveal_strlit(": ");
    reveal_strlit(": no process found");
    reveal_strlit("no process found");
    reveal_strlit(": error - ");
    reveal_strlit("error - ");
    let head = "Port "@ + decimal(r.port as nat);
    assert(head + ": "@ + "no process found"@ =~= head + ": no process found"@);
    if let Some(e) = r.error {
        assert(head + ": "@ + "error - "@ + e@ =~= head + ": error - "@ + e@);
    }
}

/// One pid is listed as its decimal alone.
pub proof fn lemma_single_pid_text(pid: u32, sep: Seq<char>)
    ensures
        join(pid_texts(seq![pid]), sep) == decimal(pid as nat),
{
    assert(pid_texts(seq![pid]).len() == 1);
    assert(pid_texts(seq![pid])[0] == decimal(pid as nat));
}

/// The `error` field of an entry is `null` exactly when the result has no
/// error, whatever its pids; otherwise it is the escaped error text in
/// quotes.
pub proof fn lemma_json_error_field(port: u16, pids: Seq<u32>, error: Option<Seq<char>>)
    ensures
        json_entry(port, pids, error) == "{\"port\":"@ + decimal(port as nat) + ",\"pids\":["@
            + join(pid_texts(pids), seq![',']) + match error {
            None => "],\"error\":null}"@,
            Some(e) => "],\"error\":\""@ + json_escape(e) + "\"}"@,
        },
{
    reveal_strlit("],\"error\":");
    reveal_strlit("null");
    reveal_strlit("],\"error\":null}");
    reveal_strlit("],\"error\":\"");
    reveal_strlit("\"}");
    let head = "{\"port\":"@ + decimal(port as nat) + ",\"pids\":["@ + join(
        pid_texts(pids),
        seq![','],
    );
    match error {
        None => {
            assert(head + "],\"error\":"@ + "null"@ + seq!['}'] =~= head + "],\"error\":null}"@);
        },
        Some(e) => {
            assert(head + "],\"error\":"@ + (seq!['"'] + json_escape(e) + seq!['"']) + seq!['}']
                =~= head + "],\"error\":\""@ + json_escape(e) + "\"}"@);
        },
    }
}

/// Adding a pid to a list adds its decimal after the separator (alone when
/// the list was empty).
pub proof fn lemma_pid_list_push(pids: Seq<u32>, pid: u32, sep: Seq<char>)
    ensures
        join(pid_texts(pids.push(pid)), sep) == if pids.len() == 0 {
            decimal(pid as nat)
        } else {
            join(pid_texts(pids), sep) + sep + decimal(pid as nat)
        },
{
    assert(pid_texts(pids.push(pid)) =~= pid_texts(pids).push(decimal(pid as nat)));
    lemma_join_push(pid_texts(pids), decimal(pid as nat), sep);
}

/// One more result adds its object at the end of the array, after a comma
/// unless it is the first.
pub proof fn lemma_results_json_push(results: Seq<KillResult>, r: KillResult)
    ensures
        results_json(results.push(r)) == if results.len() == 0 {
            seq!['['] + result_json(r) + seq![']']
        } else {
            results_json(results).drop_last() + seq![','] + result_json(r) + seq![']']
        },
{
    let es = results.map_values(|x: KillResult| result_json(x));
    assert(results.push(r).map_values(|x: KillResult| result_json(x)) =~= es.push(result_json(r)));
    lemma_join_push(es, result_json(r), seq![',']);
    let whole = seq!['['] + join(es, seq![',']) + seq![']'];
    assert(whole.drop_last() =~= seq!['['] + join(es, seq![',']));
}

/// The value of a hexadecimal digit (0 for any other character).
pub open spec fn hex_value(c: char) -> nat {
    match digit_value(c, 16) {
        Some(d) => d,
        None => 0,
    }
}

/// The character a JSON escape `\x` (other than `\u`) stands for.
pub open spec fn unescaped(x: char) -> char {
    if x == 'n' {
        '\n'
    } else if x == 'r' {
        '\r'
    } else if x == 't' {
        '\t'
    } else if x == 'b' {
        8u32 as char
    } else if x == 'f' {
        12u32 as char
    } else {
        x
    }
}

/// The value of the body of a JSON string literal, read from the left as a
/// JSON reader reads it.
pub open spec fn json_unescape(t: Seq<char>) -> Seq<char>
    decreases t.len(),
{
    if t.len() == 0 {
        seq![]
    } else if t[0] == '\\' && t.len() >= 2 {
        if t[1] == 'u' && t.len() >= 6 {
            seq![
                (hex_value(t[2]) * 4096 + hex_value(t[3]) * 256 + hex_value(t[4]) * 16 + hex_value(
                    t[5],
                )) as char,
            ] + json_unescape(t.skip(6))
        } else {
            seq![unescaped(t[1])] + json_unescape(t.skip(2))
        }
    } else {
        seq![t[0]] + json_unescape(t.drop_first())
    }
}

proof fn lemma_unescape_char(c: char, t: Seq<char>)
    ensures
        json_unescape(json_char(c) + t) == seq![c] + json_unescape(t),
{
    let e = json_char(c);
    let n = c as u32;
    let w = e + t;
    if e.len() == 1 {
        assert(w.drop_first() =~= t);
    } else if n < 0x20 && c != '"' && c != '\\' && n != 10 && n != 13 && n != 9 && n != 8 && n
        != 12 {
        assert(w.skip(6) =~= t);
        assert(digit_value(hex_digit((n / 16) as nat), 16) == Some((n / 16) as nat));
        assert(digit_value(hex_digit((n % 16) as nat), 16) == Some((n % 16) as nat));
        assert(digit_value('0', 16) == Some(0nat));
        assert((n / 16) * 16 + n % 16 == n);
        assert(((n as int) as char) == c);
    } else {
        assert(w.skip(2) =~= t);
        if n == 8 {
            assert((8u32 as char) == c);
        }
        if n == 12 {
            assert((12u32 as char) == c);
        }
    }
}

proof fn lemma_unescape_escape_then(s: Seq<char>, t: Seq<char>)
    ensures
        json_unescape(json_escape(s) + t) == s + json_unescape(t),
    decreases s.len(),
{
    if s.len() == 0 {
        assert(json_escape(s) + t =~= t);
        assert(s + json_unescape(t) =~= json_unescape(t));
    } else {
        let a = s.drop_last();
        let c = s.last();
        lemma_unescape_char(c, t);
        lemma_unescape_escape_then(a, json_char(c) + t);
        assert(json_escape(s) + t =~= json_escape(a) + (json_char(c) + t));
        assert(a + (seq![c] + json_unescape(t)) =~= s + json_unescape(t));
    }
}

/// Escaping loses nothing: a JSON reader gets the error text back from the
/// escaped string, whatever characters it holds.
pub proof fn lemma_json_escape_round_trip(s: Seq<char>)
    ensures
        json_unescape(json_escape(s)) == s,
{
    lemma_unescape_escape_then(s, seq![]);
    assert(s + Seq::<char>::empty() =~= s);
}

/// The escaped text holds no raw control character and no `"` that is not
/// behind a backslash, so it stays inside its JSON string.
pub proof fn lemma_json_escape_is_plain(s: Seq<char>)
    ensures
        forall|i: int| 0 <= i < json_escape(s).len() ==> (#[trigger] json_escape(s)[i]) as u32 >= 0x20,
        forall|i: int|
            0 <= i < json_escape(s).len() && #[trigger] json_escape(s)[i] == '"' ==> i > 0
                && json_escape(s)[i - 1] == '\\',
    decreases s.len(),
{
    if s.len() > 0 {
        let a = s.drop_last();
        lemma_json_escape_is_plain(a);
        let ea = json_escape(a);
        let ec = json_char(s.last());
        let w = json_escape(s);
        assert(w =~= ea + ec);
        assert forall|i: int| 0 <= i < w.len() implies (#[trigger] w[i]) as u32 >= 0x20 by {
            if i < ea.len() {
                assert(w[i] == ea[i]);
            } else {
                assert(w[i] == ec[i - ea.len()]);
                let n = s.last() as u32;
                if n < 0x20 && n != 10 && n != 13 && n != 9 && n != 8 && n != 12 {
                    assert(hex_digit((n / 16) as nat) as u32 >= 48);
                    assert(hex_digit((n % 16) as nat) as u32 >= 48);
                }
            }
        }
        assert forall|i: int| 0 <= i < w.len() && #[trigger] w[i] == '"' implies i > 0 && w[i - 1]
            == '\\' by {
            if i < ea.len() {
                assert(w[i] == ea[i]);
                assert(w[i - 1] == ea[i - 1]);
            } else {
                assert(w[i] == ec[i - ea.len()]);
                let n = s.last() as u32;
                if n < 0x20 && n != 10 && n != 13 && n != 9 && n != 8 && n != 12 {
                    assert(hex_digit((n / 16) as nat) != '"');
                    assert(hex_digit((n % 16) as nat) != '"');
                }
                assert(i - ea.len() == 1);
                assert(w[i - 1] == ec[0]);
            }
        }
    }
}

} // verus!
