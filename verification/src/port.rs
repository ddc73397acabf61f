//! Port arguments: single ports (`3000`), ranges (`3000-3010`) and
//! comma-separated lists (`3000,3001`), and what a kill attempt reports.

use vstd::prelude::*;

use crate::number::{
    all_digits, decimal, digit_value, lemma_decimal_digits, lemma_decimal_parses_back,
    parse_unsigned, parse_unsigned_in,
};
use crate::text::{
    chars_of, find_char, find_char_in, is_space, lemma_find_char, lemma_find_char_at,
    lemma_find_char_none, lemma_split_on_pieces, lemma_trim_blanks, split_on, trim, trim_bounds,
    trim_end, trim_start,
};

verus! {

/// The signal sent to the processes found on a port.
#[derive(Debug, Clone, Copy, PartialEq, Eq)]
pub enum Signal {
    Kill,
    Term,
}

impl Signal {
    /// `--graceful` asks for `Term`, otherwise `Kill` is sent.
    pub fn from_graceful(graceful: bool) -> (s: Signal)
        ensures
            s == (if graceful {
                Signal::Term
            } else {
                Signal::Kill
            }),
    {
        if graceful {
            Signal::Term
        } else {
            Signal::Kill
        }
    }
}

/// What was done about one port: the processes found on it, or why the
/// lookup failed.
#[derive(Debug)]
pub struct KillResult {
    pub port: u16,
    pub pids: Vec<u32>,
    pub error: Option<String>,
}

pub struct PortSpec;

#[derive(Debug)]
pub enum PortParseError {
    Invalid(String),
    Zero,
    InvalidRange(u16, u16),
    RangeTooLarge(u16, u16),
}

/// `PortParseError` with its text as a sequence of characters.
pub enum PortParseFailure {
    Invalid(Seq<char>),
    Zero,
    InvalidRange(u16, u16),
    RangeTooLarge(u16, u16),
}

impl View for PortParseError {
    type V = PortParseFailure;

    open spec fn view(&self) -> PortParseFailure {
        match self {
            PortParseError::Invalid(s) => PortParseFailure::Invalid(s@),
            PortParseError::Zero => PortParseFailure::Zero,
            PortParseError::InvalidRange(s, e) => PortParseFailure::InvalidRange(*s, *e),
            PortParseError::RangeTooLarge(s, e) => PortParseFailure::RangeTooLarge(*s, *e),
        }
    }
}

/// The most ports that one range may hold, less one.
pub open spec fn max_range_span() -> nat {
    1000
}

/// What the port text `t` is as a port number: `u16::from_str` of it.
pub open spec fn port_value(t: Seq<char>) -> Option<nat> {
    parse_unsigned(t, 10, 0xffff)
}

/// `start, start + 1, ..., end`.
pub open spec fn port_range(start: u16, end: u16) -> Seq<u16> {
    Seq::new((end - start + 1) as nat, |i: int| (start + i) as u16)
}

/// The ports of the first result followed by those of the second; the
/// first error met otherwise.
pub open spec fn then_append(
    first: Result<Seq<u16>, PortParseFailure>,
    rest: Result<Seq<u16>, PortParseFailure>,
) -> Result<Seq<u16>, PortParseFailure> {
    match first {
        Err(e) => Err(e),
        Ok(a) => match rest {
            Ok(b) => Ok(a + b),
            Err(e) => Err(e),
        },
    }
}

/// One item of a comma-separated list.
pub open spec fn parse_part(part: Seq<char>) -> Result<Seq<u16>, PortParseFailure> {
    match port_value(trim(part)) {
        None => Err(PortParseFailure::Invalid(part)),
        Some(p) => if p == 0 {
            Err(PortParseFailure::Zero)
        } else {
            Ok(seq![p as u16])
        },
    }
}

pub open spec fn parse_parts(parts: Seq<Seq<char>>) -> Result<Seq<u16>, PortParseFailure>
    decreases parts.len(),
{
    if parts.len() == 0 {
        Ok(seq![])
    } else {
        then_append(parse_part(parts[0]), parse_parts(parts.drop_first()))
    }
}

/// An argument whose first `-` stands at `dash`.
pub open spec fn parse_range(arg: Seq<char>, dash: int) -> Result<Seq<u16>, PortParseFailure> {
    match (port_value(trim(arg.take(dash))), port_value(trim(arg.skip(dash + 1)))) {
        (Some(s), Some(e)) => if s == 0 || e == 0 {
            Err(PortParseFailure::Zero)
        } else if s > e {
            Err(PortParseFailure::InvalidRange(s as u16, e as u16))
        } else if e - s > max_range_span() {
            Err(PortParseFailure::RangeTooLarge(s as u16, e as u16))
        } else {
            Ok(port_range(s as u16, e as u16))
        },
        _ => Err(PortParseFailure::Invalid(arg)),
    }
}

/// One command-line argument: a range if it holds a `-`, else a
/// comma-separated list of ports.
pub open spec fn parse_arg(arg: Seq<char>) -> Result<Seq<u16>, PortParseFailure> {
    match find_char(arg, '-') {
        Some(dash) => parse_range(arg, dash),
        None => parse_parts(split_on(arg, ',')),
    }
}

/// All arguments: their ports in order, or the error of the first argument
/// that has one.
pub open spec fn parse_args(args: Seq<Seq<char>>) -> Result<Seq<u16>, PortParseFailure>
    decreases args.len(),
{
    if args.len() == 0 {
        Ok(seq![])
    } else {
        then_append(parse_arg(args[0]), parse_args(args.drop_first()))
    }
}

pub open spec fn arg_texts(args: Seq<String>) -> Seq<Seq<char>> {
    args.map_values(|a: String| a@)
}

pub proof fn lemma_then_append_assoc(
    a: Seq<u16>,
    b: Seq<u16>,
    rest: Result<Seq<u16>, PortParseFailure>,
)
    ensures
        then_append(Ok(a), then_append(Ok(b), rest)) == then_append(Ok(a + b), rest),
{
    if let Ok(c) = rest {
        assert(a + (b + c) =~= (a + b) + c);
    }
}

/// The port written in `v[lo..hi]`, trimmed, as one item of a list.
fn parse_list_item(arg: &String, v: &Vec<char>, lo: usize, hi: usize) -> (r: Result<
    u16,
    PortParseError,
>)
    requires
        lo <= hi <= v@.len(),
        v@ == arg@,
    ensures
        match r {
            Ok(p) => parse_part(v@.subrange(lo as int, hi as int)) == Ok::<
                Seq<u16>,
                PortParseFailure,
            >(seq![p]),
            Err(e) => parse_part(v@.subrange(lo as int, hi as int)) == Err::<
                Seq<u16>,
                PortParseFailure,
            >(e@),
        },
{
    let (a, b) = trim_bounds(v, lo, hi);
    match parse_unsigned_in(v, a, b, 10, 0xffff) {
        None => {
            let part = arg.as_str().substring_char(lo, hi).to_owned();
            Err(PortParseError::Invalid(part))
        },
        Some(p) => {
            if p == 0 {
                Err(PortParseError::Zero)
            } else {
                Ok(p as u16)
            }
        },
    }
}

/// Parses one argument, appending its ports to `ports`.
fn parse_one_arg(arg: &String, ports: &mut Vec<u16>) -> (r: Result<(), PortParseError>)
    ensures
        match r {
            Ok(()) => parse_arg(arg@) == Ok::<Seq<u16>, PortParseFailure>(
                final(ports)@.skip(old(ports)@.len() as int),
            ) && final(ports)@.len() >= old(ports)@.len() && final(ports)@.take(
                old(ports)@.len() as int,
            ) == old(ports)@,
            Err(e) => parse_arg(arg@) == Err::<Seq<u16>, PortParseFailure>(e@),
        },
{
    let v = chars_of(arg.as_str());
    let n = v.len();
    let ghost s = v@;
    let ghost base = ports@.len();
    assert(v@.subrange(0, n as int) =~= s);
    match find_char_in(&v, 0, n, '-') {
        Some(dash) => {
            let (a0, b0) = trim_bounds(&v, 0, dash);
            let (a1, b1) = trim_bounds(&v, dash + 1, n);
            assert(s.take(dash as int) =~= v@.subrange(0, dash as int));
            assert(s.skip(dash + 1) =~= v@.subrange(dash + 1, n as int));
            let start = match parse_unsigned_in(&v, a0, b0, 10, 0xffff) {
                Some(x) => x,
                None => {
                    return Err(PortParseError::Invalid(arg.clone()));
                },
            };
            let end = match parse_unsigned_in(&v, a1, b1, 10, 0xffff) {
                Some(x) => x,
                None => {
                    return Err(PortParseError::Invalid(arg.clone()));
                },
            };
            let start = start as u16;
            let end = end as u16;
            if start == 0 || end == 0 {
                return Err(PortParseError::Zero);
            }
            if start > end {
                return Err(PortParseError::InvalidRange(start, end));
            }
            if end - start > 1000 {
                return Err(PortParseError::RangeTooLarge(start, end));
            }
            let mut p: u32 = start as u32;
            while p <= end as u32
                invariant
                    start <= p <= end as u32 + 1,
                    end <= 0xffff,
                    ports@.len() == base + (p - start),
                    ports@.take(base as int) == old(ports)@,
                    forall|k: int|
                        0 <= k < p - start ==> #[trigger] ports@[base + k] == (start + k) as u16,
                decreases end as u32 + 1 - p,
            {
                ports.push(p as u16);
                assert(ports@.take(base as int) =~= old(ports)@);
                p = p + 1;
            }
            assert forall|k: int| 0 <= k < ports@.len() - base implies ports@.skip(base as int)[k]
                == port_range(start, end)[k] by {
                assert(ports@[base + k] == (start + k) as u16);
            }
            assert(ports@.skip(base as int) =~= port_range(start, end));
            Ok(())
        },
        None => {
            let mut pos: usize = 0;
            assert(ports@.skip(base as int) =~= Seq::<u16>::empty());
            assert(ports@.take(base as int) =~= old(ports)@);
            loop
                invariant
                    pos <= n == v@.len(),
                    v@ == arg@,
                    s == v@,
                    find_char(s, '-') is None,
                    base == old(ports)@.len(),
                    ports@.len() >= base,
                    ports@.take(base as int) == old(ports)@,
                    parse_parts(split_on(s, ',')) == then_append(
                        Ok(ports@.skip(base as int)),
                        parse_parts(split_on(v@.subrange(pos as int, n as int), ',')),
                    ),
                decreases n - pos,
            {
                let ghost rest = v@.subrange(pos as int, n as int);
                let ghost before = ports@;
                let found = find_char_in(&v, pos, n, ',');
                let end = match found {
                    Some(k) => k,
                    None => n,
                };
                let ghost pieces = split_on(rest, ',');
                proof {
                    lemma_find_char(rest, ',');
                    match found {
                        Some(k) => {
                            assert(rest.take(k - pos) =~= v@.subrange(pos as int, k as int));
                            assert(rest.skip(k - pos + 1) =~= v@.subrange(k + 1, n as int));
                            assert(pieces.drop_first() =~= split_on(
                                v@.subrange(k + 1, n as int),
                                ',',
                            ));
                        },
                        None => {
                            assert(pieces.drop_first() =~= Seq::<Seq<char>>::empty());
                        },
                    }
                    assert(pieces[0] == v@.subrange(pos as int, end as int));
                }
                match parse_list_item(arg, &v, pos, end) {
                    Err(e) => {
                        return Err(e);
                    },
                    Ok(p) => {
                        ports.push(p);
                        proof {
                            assert(ports@.take(base as int) =~= old(ports)@);
                            assert(ports@.skip(base as int) =~= before.skip(base as int) + seq![
                                p,
                            ]);
                            lemma_then_append_assoc(
                                before.skip(base as int),
                                seq![p],
                                parse_parts(pieces.drop_first()),
                            );
                        }
                        match found {
                            Some(k) => {
                                pos = k + 1;
                            },
                            None => {
                                assert(parse_parts(Seq::<Seq<char>>::empty()) == Ok::<
                                    Seq<u16>,
                                    PortParseFailure,
                                >(seq![]));
                                assert(ports@.skip(base as int) + seq![] =~= ports@.skip(
                                    base as int,
                                ));
                                return Ok(());
                            },
                        }
                    },
                }
            }
        },
    }
}

impl PortSpec {
    /// Parse port arguments: supports single ports (3000) and ranges (3000-3010)
    pub fn parse_all(args: &[String]) -> (r: Result<Vec<u16>, PortParseError>)
        ensures
            match r {
                Ok(ports) => parse_args(arg_texts(args@)) == Ok::<Seq<u16>, PortParseFailure>(
                    ports@,
                ),
                Err(e) => parse_args(arg_texts(args@)) == Err::<Seq<u16>, PortParseFailure>(e@),
            },
    {
        let mut ports: Vec<u16> = Vec::new();
        let ghost all = arg_texts(args@);
        assert(all.skip(0) =~= all);
        assert(ports@ =~= Seq::<u16>::empty());
        for i in 0..args.len()
            invariant
                all == arg_texts(args@),
                parse_args(all) == then_append(Ok(ports@), parse_args(all.skip(i as int))),
        {
            let ghost before = ports@;
            let ghost rest = all.skip(i as int);
            assert(rest[0] == args@[i as int]@);
            assert(rest.drop_first() =~= all.skip(i + 1));
            match parse_one_arg(&args[i], &mut ports) {
                Err(e) => {
                    return Err(e);
                },
                Ok(()) => {
                    proof {
                        let added = ports@.skip(before.len() as int);
                        assert(ports@ =~= before + added);
                        lemma_then_append_assoc(before, added, parse_args(all.skip(i + 1)));
                    }
                },
            }
        }
        assert(all.skip(args.len() as int) =~= Seq::<Seq<char>>::empty());
        assert(ports@ + seq![] =~= ports@);
        Ok(ports)
    }
}

/// Every port that parsing yields is a real port: none is 0.
pub proof fn lemma_parsed_ports_nonzero(args: Seq<Seq<char>>)
    ensures
        parse_args(args) matches Ok(ports) ==> forall|i: int|
            0 <= i < ports.len() ==> #[trigger] ports[i] != 0,
    decreases args.len(),
{
    if args.len() > 0 {
        lemma_parsed_ports_nonzero(args.drop_first());
        lemma_arg_ports_nonzero(args[0]);
        if let Ok(ports) = parse_args(args) {
            let a = parse_arg(args[0])->Ok_0;
            let b = parse_args(args.drop_first())->Ok_0;
            assert forall|i: int| 0 <= i < ports.len() implies #[trigger] ports[i] != 0 by {
                if i < a.len() {
                    assert(ports[i] == a[i]);
                } else {
                    assert(ports[i] == b[i - a.len()]);
                }
            }
        }
    }
}

proof fn lemma_parts_ports_nonzero(parts: Seq<Seq<char>>)
    ensures
        parse_parts(parts) matches Ok(ports) ==> forall|i: int|
            0 <= i < ports.len() ==> #[trigger] ports[i] != 0,
    decreases parts.len(),
{
    if parts.len() > 0 {
        lemma_parts_ports_nonzero(parts.drop_first());
        if let Ok(ports) = parse_parts(parts) {
            let a = parse_part(parts[0])->Ok_0;
            let b = parse_parts(parts.drop_first())->Ok_0;
            assert forall|i: int| 0 <= i < ports.len() implies #[trigger] ports[i] != 0 by {
                if i < a.len() {
                    assert(ports[i] == a[i]);
                } else {
                    assert(ports[i] == b[i - a.len()]);
                }
            }
        }
    }
}

proof fn lemma_arg_ports_nonzero(arg: Seq<char>)
    ensures
        parse_arg(arg) matches Ok(ports) ==> forall|i: int|
            0 <= i < ports.len() ==> #[trigger] ports[i] != 0,
{
    lemma_parts_ports_nonzero(split_on(arg, ','));
}

/// Parsing two lists of arguments one after the other gives what parsing
/// them together gives.
pub proof fn lemma_parse_args_concat(a: Seq<Seq<char>>, b: Seq<Seq<char>>)
    ensures
        parse_args(a + b) == then_append(parse_args(a), parse_args(b)),
    decreases a.len(),
{
    if a.len() == 0 {
        assert(a + b =~= b);
        if let Ok(q) = parse_args(b) {
            assert(Seq::<u16>::empty() + q =~= q);
        }
    } else {
        lemma_parse_args_concat(a.drop_first(), b);
        assert((a + b)[0] == a[0]);
        assert((a + b).drop_first() =~= a.drop_first() + b);
        if let Ok(x) = parse_arg(a[0]) {
            if let Ok(y) = parse_args(a.drop_first()) {
                lemma_then_append_assoc(x, y, parse_args(b));
            }
        }
    }
}

proof fn lemma_decimal_plain(n: nat)
    ensures
        decimal(n).len() > 0,
        forall|i: int|
            0 <= i < decimal(n).len() ==> {
                let c = #[trigger] decimal(n)[i];
                &&& !is_space(c)
                &&& c != '-'
                &&& c != ','
            },
        trim(decimal(n)) == decimal(n),
        find_char(decimal(n), '-') is None,
        split_on(decimal(n), ',') == seq![decimal(n)],
{
    let d = decimal(n);
    lemma_decimal_digits(n);
    assert forall|i: int| 0 <= i < d.len() implies {
        let c = #[trigger] d[i];
        &&& !is_space(c)
        &&& c != '-'
        &&& c != ','
    } by {
        assert(digit_value(d[i], 10) is Some);
    }
    assert(trim_start(d) == d);
    assert(trim_end(d) == d);
    lemma_find_char_none(d, '-');
    lemma_find_char_none(d, ',');
}

/// A port written in decimal and passed back as an argument is that port.
pub proof fn lemma_port_text_round_trip(port: u16)
    requires
        port != 0,
    ensures
        parse_arg(decimal(port as nat)) == Ok::<Seq<u16>, PortParseFailure>(seq![port]),
{
    let d = decimal(port as nat);
    lemma_decimal_plain(port as nat);
    lemma_decimal_parses_back(port as nat, 0xffff);
    assert(seq![d].drop_first() =~= Seq::<Seq<char>>::empty());
    assert(parse_parts(seq![d].drop_first()) == Ok::<Seq<u16>, PortParseFailure>(seq![]));
    assert(port_value(trim(d)) == Some(port as nat));
    assert(parse_part(d) == Ok::<Seq<u16>, PortParseFailure>(seq![port]));
    assert(seq![port] + Seq::<u16>::empty() =~= seq![port]);
    assert(parse_parts(seq![d]) == Ok::<Seq<u16>, PortParseFailure>(seq![port]));
}

/// A range written as `start-end` and passed back as an argument gives
/// every port from `start` to `end`.
pub proof fn lemma_range_text_round_trip(start: u16, end: u16)
    requires
        0 < start <= end,
        end - start <= max_range_span(),
    ensures
        parse_arg(decimal(start as nat) + seq!['-'] + decimal(end as nat)) == Ok::<
            Seq<u16>,
            PortParseFailure,
        >(port_range(start, end)),
{
    let a = decimal(start as nat);
    let b = decimal(end as nat);
    let t = a + seq!['-'] + b;
    lemma_decimal_plain(start as nat);
    lemma_decimal_plain(end as nat);
    lemma_decimal_parses_back(start as nat, 0xffff);
    lemma_decimal_parses_back(end as nat, 0xffff);
    assert forall|j: int| 0 <= j < a.len() implies t[j] != '-' by {
        assert(t[j] == a[j]);
    }
    lemma_find_char_at(t, '-', a.len() as int);
    assert(t.take(a.len() as int) =~= a);
    assert(t.skip(a.len() as int + 1) =~= b);
}

/// Two ports written in decimal with a comma between them give both ports,
/// in order.
pub proof fn lemma_list_text_round_trip(first: u16, second: u16)
    requires
        first != 0,
        second != 0,
    ensures
        parse_arg(decimal(first as nat) + seq![','] + decimal(second as nat)) == Ok::<
            Seq<u16>,
            PortParseFailure,
        >(seq![first, second]),
{
    let a = decimal(first as nat);
    let b = decimal(second as nat);
    let t = a + seq![','] + b;
    lemma_decimal_plain(first as nat);
    lemma_decimal_plain(second as nat);
    lemma_decimal_parses_back(first as nat, 0xffff);
    lemma_decimal_parses_back(second as nat, 0xffff);
    assert forall|j: int| 0 <= j < t.len() implies t[j] != '-' by {
        if j < a.len() {
            assert(t[j] == a[j]);
        } else if j > a.len() {
            assert(t[j] == b[j - a.len() - 1]);
        }
    }
    lemma_find_char_none(t, '-');
    lemma_split_on_pieces(a, b, ',');
    lemma_split_on_pieces(b, Seq::<char>::empty(), ',');
    let parts = seq![a] + seq![b];
    assert(parts.drop_first() =~= seq![b]);
    assert(seq![b].drop_first() =~= Seq::<Seq<char>>::empty());
    assert(parse_parts(Seq::<Seq<char>>::empty()) == Ok::<Seq<u16>, PortParseFailure>(seq![]));
    assert(parse_part(a) == Ok::<Seq<u16>, PortParseFailure>(seq![first]));
    assert(parse_part(b) == Ok::<Seq<u16>, PortParseFailure>(seq![second]));
    assert(seq![second] + Seq::<u16>::empty() =~= seq![second]);
    assert(parse_parts(seq![b]) == Ok::<Seq<u16>, PortParseFailure>(seq![second]));
    assert(seq![first] + seq![second] =~= seq![first, second]);
}

/// Blanks around a port do not change it.
pub proof fn lemma_blanks_around_port(front: Seq<char>, port: u16, back: Seq<char>)
    requires
        port != 0,
        forall|j: int| 0 <= j < front.len() ==> is_space(#[trigger] front[j]),
        forall|j: int| 0 <= j < back.len() ==> is_space(#[trigger] back[j]),
    ensures
        parse_arg(front + decimal(port as nat) + back) == Ok::<Seq<u16>, PortParseFailure>(
            seq![port],
        ),
{
    let d = decimal(port as nat);
    let t = front + d + back;
    lemma_decimal_plain(port as nat);
    lemma_decimal_parses_back(port as nat, 0xffff);
    lemma_trim_blanks(front, d, back);
    assert forall|j: int| 0 <= j < t.len() implies t[j] != '-' && t[j] != ',' by {
        if j < front.len() {
            assert(t[j] == front[j]);
        } else if j < front.len() + d.len() {
            assert(t[j] == d[j - front.len()]);
        } else {
            assert(t[j] == back[j - front.len() - d.len()]);
        }
    }
    lemma_find_char_none(t, '-');
    lemma_split_on_pieces(t, Seq::<char>::empty(), ',');
    assert(seq![t].drop_first() =~= Seq::<Seq<char>>::empty());
    assert(parse_parts(Seq::<Seq<char>>::empty()) == Ok::<Seq<u16>, PortParseFailure>(seq![]));
    assert(parse_part(t) == Ok::<Seq<u16>, PortParseFailure>(seq![port]));
    assert(seq![port] + Seq::<u16>::empty() =~= seq![port]);
}

} // verus!
