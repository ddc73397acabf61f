//! The Linux process file system as text: the socket tables under
//! `/proc/net`, the names of process directories, and the targets of the
//! links under `/proc/<pid>/fd`.

use vstd::prelude::*;

use crate::kill::Protocol;
use crate::number::{decimal, lemma_decimal_parses_back, parse_unsigned, parse_unsigned_in};
use crate::text::{
    chars_of, find_char, find_char_in, lemma_find_char, line_spans, lines, span_texts,
    spans_within, split_on, word_spans, words,
};

verus! {

/// The state column's value for a listening TCP socket.
pub open spec fn listen_state() -> Seq<char> {
    seq!['0', 'A']
}

/// The socket inode that a row of `/proc/net/{tcp,udp}[6]` names, if the
/// row's local port (the part after the first `:` of its second column,
/// in hexadecimal) is `port`, the row has at least ten columns, and, for
/// TCP, the socket listens. The inode is the tenth column, in decimal.
pub open spec fn row_inode(line: Seq<char>, port: u16, protocol: Protocol) -> Option<u64> {
    let parts = words(line);
    if parts.len() < 10 {
        None
    } else {
        let addr = split_on(parts[1], ':');
        if addr.len() < 2 || parse_unsigned(addr[1], 16, 0xffff) != Some(port as nat) {
            None
        } else if protocol == Protocol::Tcp && parts[3] != listen_state() {
            None
        } else {
            match parse_unsigned(parts[9], 10, u64::MAX as nat) {
                Some(i) => Some(i as u64),
                None => None,
            }
        }
    }
}

/// The inodes of the sockets on `port` that a whole table lists (its first
/// line is a header).
pub open spec fn table_inodes(content: Seq<char>, port: u16, protocol: Protocol) -> Set<u64> {
    Set::new(
        |i: u64|
            exists|k: int|
                1 <= k < lines(content).len() && #[trigger] row_inode(lines(content)[k], port, protocol)
                    == Some(i),
    )
}

proof fn lemma_split_on_first(s: Seq<char>, c: char)
    ensures
        split_on(s, c).len() >= 1,
        split_on(s, c)[0] == (match find_char(s, c) {
            Some(i) => s.take(i),
            None => s,
        }),
        split_on(s, c).len() >= 2 <==> find_char(s, c) is Some,
        find_char(s, c) matches Some(i) ==> split_on(s, c).drop_first() == split_on(
            s.skip(i + 1),
            c,
        ),
    decreases s.len(),
{
    lemma_find_char(s, c);
    if let Some(i) = find_char(s, c) {
        lemma_split_on_first(s.skip(i + 1), c);
        assert(split_on(s, c).drop_first() =~= split_on(s.skip(i + 1), c));
    }
}

/// `row_inode` of the line `v[lo..hi]`.
fn row_inode_in(v: &Vec<char>, lo: usize, hi: usize, port: u16, protocol: Protocol) -> (r: Option<
    u64,
>)
    requires
        lo <= hi <= v@.len(),
    ensures
        r == row_inode(v@.subrange(lo as int, hi as int), port, protocol),
{
    let ghost line = v@.subrange(lo as int, hi as int);
    let spans = word_spans(v, lo, hi);
    let ghost parts = words(line);
    assert(parts.len() == spans@.len());
    if spans.len() < 10 {
        return None;
    }
    assert(parts[1] == v@.subrange(spans@[1].0 as int, spans@[1].1 as int));
    assert(parts[3] == v@.subrange(spans@[3].0 as int, spans@[3].1 as int));
    assert(parts[9] == v@.subrange(spans@[9].0 as int, spans@[9].1 as int));
    let (a1, b1) = spans[1];
    let ghost addr = parts[1];
    proof {
        lemma_split_on_first(addr, ':');
    }
    let colon = match find_char_in(v, a1, b1, ':') {
        Some(c) => c,
        None => {
            return None;
        },
    };
    let ghost after = addr.skip(colon - a1 + 1);
    assert(after =~= v@.subrange(colon + 1, b1 as int));
    proof {
        lemma_split_on_first(after, ':');
    }
    let field_end = match find_char_in(v, colon + 1, b1, ':') {
        Some(c) => c,
        None => b1,
    };
    proof {
        if let Some(j) = find_char(after, ':') {
            assert(after.take(j) =~= v@.subrange(colon + 1, field_end as int));
        }
    }
    match parse_unsigned_in(v, colon + 1, field_end, 16, 0xffff) {
        Some(p) => {
            if p != port as u64 {
                return None;
            }
        },
        None => {
            return None;
        },
    }
    if protocol == Protocol::Tcp {
        let (a3, b3) = spans[3];
        let listening = b3 - a3 == 2 && v[a3] == '0' && v[a3 + 1] == 'A';
        proof {
            if listening {
                assert(parts[3] =~= listen_state());
            } else if parts[3] =~= listen_state() {
                assert(parts[3].len() == 2);
            }
        }
        if !listening {
            return None;
        }
    }
    let (a9, b9) = spans[9];
    match parse_unsigned_in(v, a9, b9, 10, u64::MAX) {
        Some(i) => Some(i),
        None => None,
    }
}

/// Whether `x` occurs in `v`.
pub fn contains_u64(v: &Vec<u64>, x: u64) -> (b: bool)
    ensures
        b == v@.contains(x),
{
    let mut i: usize = 0;
    while i < v.len()
        invariant
            i <= v@.len(),
            forall|j: int| 0 <= j < i ==> v@[j] != x,
        decreases v.len() - i,
    {
        if v[i] == x {
            return true;
        }
        i = i + 1;
    }
    false
}

/// Adds to `inodes` the inodes of the sockets on `port` that the table
/// `content` (one file of `/proc/net`) lists; an inode already there is not
/// added again.
pub fn collect_socket_inodes(content: &str, port: u16, protocol: Protocol, inodes: &mut Vec<u64>)
    ensures
        final(inodes)@.to_set() == old(inodes)@.to_set().union(
            table_inodes(content@, port, protocol),
        ),
        old(inodes)@.no_duplicates() ==> final(inodes)@.no_duplicates(),
{
    let v = chars_of(content);
    let spans = line_spans(&v);
    let ghost ls = lines(v@);
    assert(ls.len() == spans@.len());
    let mut k: usize = 1;
    while k < spans.len()
        invariant
            1 <= k,
            ls == lines(v@),
            v@ == content@,
            ls.len() == spans@.len(),
            ls == span_texts(v@, spans@),
            spans_within(spans@, 0, v@.len() as int),
            inodes@.to_set() == old(inodes)@.to_set().union(
                Set::new(
                    |i: u64|
                        exists|j: int|
                            1 <= j < k && j < ls.len() && #[trigger] row_inode(
                                ls[j],
                                port,
                                protocol,
                            ) == Some(i),
                ),
            ),
            old(inodes)@.no_duplicates() ==> inodes@.no_duplicates(),
        decreases spans@.len() - k,
    {
        let (lo, hi) = spans[k];
        assert(ls[k as int] == v@.subrange(lo as int, hi as int));
        let row = row_inode_in(&v, lo, hi, port, protocol);
        let ghost before = inodes@;
        match row {
            Some(i) => {
                if !contains_u64(inodes, i) {
                    inodes.push(i);
                    proof {
                        broadcast use vstd::seq_lib::group_seq_properties;

                        assert(inodes@ == before.push(i));
                        assert(inodes@.to_set() =~= before.to_set().insert(i));
                    }
                }
            },
            None => {},
        }
        k = k + 1;
        assert(inodes@.to_set() =~= old(inodes)@.to_set().union(
            Set::new(
                |i: u64|
                    exists|j: int|
                        1 <= j < k && j < ls.len() && #[trigger] row_inode(ls[j], port, protocol)
                            == Some(i),
            ),
        )) by {
            let prev = Set::new(
                |i: u64|
                    exists|j: int|
                        1 <= j < k - 1 && j < ls.len() && #[trigger] row_inode(
                            ls[j],
                            port,
                            protocol,
                        ) == Some(i),
            );
            let next = Set::new(
                |i: u64|
                    exists|j: int|
                        1 <= j < k && j < ls.len() && #[trigger] row_inode(ls[j], port, protocol)
                            == Some(i),
            );
            assert forall|i: u64| next.contains(i) implies prev.contains(i) || row == Some(i) by {
                let j = choose|j: int|
                    1 <= j < k && j < ls.len() && #[trigger] row_inode(ls[j], port, protocol)
                        == Some(i);
                if j < k - 1 {
                    assert(prev.contains(i));
                }
            }
            if let Some(i) = row {
                assert(next.contains(i));
            }
        }
    }
    assert(Set::new(
        |i: u64|
            exists|j: int|
                1 <= j < k && j < ls.len() && #[trigger] row_inode(ls[j], port, protocol)
                    == Some(i),
    ) =~= table_inodes(content@, port, protocol));
}

/// The target text of an fd link that names a socket: `socket:[`, then
/// the inode in decimal, then `]`.
pub open spec fn socket_link_inode(link: Seq<char>) -> Option<u64> {
    let prefix = seq!['s', 'o', 'c', 'k', 'e', 't', ':', '['];
    if link.len() >= 9 && link.take(8) == prefix && link.last() == ']' {
        match parse_unsigned(link.subrange(8, link.len() - 1), 10, u64::MAX as nat) {
            Some(i) => Some(i as u64),
            None => None,
        }
    } else {
        None
    }
}

/// The socket inode that an fd link points to, if it points to a socket.
pub fn socket_inode_of_link(link: &str) -> (r: Option<u64>)
    ensures
        r == socket_link_inode(link@),
{
    let v = chars_of(link);
    let n = v.len();
    let prefix = chars_of("socket:[");
    proof {
        reveal_strlit("socket:[");
    }
    assert(prefix@ =~= seq!['s', 'o', 'c', 'k', 'e', 't', ':', '[']);
    if n < 9 || v[n - 1] != ']' {
        return None;
    }
    let mut i: usize = 0;
    while i < 8
        invariant
            i <= 8 < n == v@.len(),
            v@ == link@,
            prefix@ =~= seq!['s', 'o', 'c', 'k', 'e', 't', ':', '['],
            forall|j: int| 0 <= j < i ==> v@[j] == prefix@[j],
        decreases 8 - i,
    {
        if v[i] != prefix[i] {
            assert(v@.take(8)[i as int] != prefix@[i as int]);
            return None;
        }
        i = i + 1;
    }
    assert(v@.take(8) =~= prefix@);
    match parse_unsigned_in(&v, 8, n - 1, 10, u64::MAX) {
        Some(x) => Some(x),
        None => None,
    }
}

/// Whether an fd link points to one of the sockets in `inodes`.
pub fn link_holds_inode(link: &str, inodes: &Vec<u64>) -> (b: bool)
    ensures
        b == (socket_link_inode(link@) matches Some(i) && inodes@.contains(i)),
{
    match socket_inode_of_link(link) {
        Some(i) => contains_u64(inodes, i),
        None => false,
    }
}

/// The process id that a directory of `/proc` is named by, if its name is
/// a decimal `u32`.
pub fn pid_of_dir_name(name: &str) -> (r: Option<u32>)
    ensures
        match r {
            Some(p) => parse_unsigned(name@, 10, u32::MAX as nat) == Some(p as nat),
            None => parse_unsigned(name@, 10, u32::MAX as nat) is None,
        },
{
    let v = chars_of(name);
    assert(v@.subrange(0, v@.len() as int) =~= name@);
    match parse_unsigned_in(&v, 0, v.len(), 10, u32::MAX as u64) {
        Some(x) => Some(x as u32),
        None => None,
    }
}

/// Every `u64` inode is read back whole from the link `socket:[<inode>]`.
pub proof fn lemma_socket_link_round_trip(inode: u64)
    ensures
        socket_link_inode(seq!['s', 'o', 'c', 'k', 'e', 't', ':', '['] + decimal(inode as nat)
            + seq![']']) == Some(inode),
{
    let d = decimal(inode as nat);
    let link = seq!['s', 'o', 'c', 'k', 'e', 't', ':', '['] + d + seq![']'];
    crate::number::lemma_decimal_digits(inode as nat);
    lemma_decimal_parses_back(inode as nat, u64::MAX as nat);
    assert(link.take(8) =~= seq!['s', 'o', 'c', 'k', 'e', 't', ':', '[']);
    assert(link.subrange(8, link.len() - 1) =~= d);
}

/// A row with at least ten columns, whose local address field holds `port`
/// in hexadecimal after its first `:` and which (for TCP) is in the listen
/// state, names the socket whose inode is its tenth column, for every
/// `u64` inode.
pub proof fn lemma_listening_row_inode(line: Seq<char>, port: u16, protocol: Protocol, inode: u64)
    requires
        words(line).len() >= 10,
        split_on(words(line)[1], ':').len() >= 2,
        parse_unsigned(split_on(words(line)[1], ':')[1], 16, 0xffff) == Some(port as nat),
        protocol == Protocol::Tcp ==> words(line)[3] == listen_state(),
        words(line)[9] == decimal(inode as nat),
    ensures
        row_inode(line, port, protocol) == Some(inode),
{
    lemma_decimal_parses_back(inode as nat, u64::MAX as nat);
}

/// Such a row after the header puts its inode among the table's inodes.
pub proof fn lemma_table_has_listening_row(
    content: Seq<char>,
    k: int,
    port: u16,
    protocol: Protocol,
    inode: u64,
)
    requires
        1 <= k < lines(content).len(),
        words(lines(content)[k]).len() >= 10,
        split_on(words(lines(content)[k])[1], ':').len() >= 2,
        parse_unsigned(split_on(words(lines(content)[k])[1], ':')[1], 16, 0xffff) == Some(
            port as nat,
        ),
        protocol == Protocol::Tcp ==> words(lines(content)[k])[3] == listen_state(),
        words(lines(content)[k])[9] == decimal(inode as nat),
    ensures
        table_inodes(content, port, protocol).contains(inode),
{
    lemma_listening_row_inode(lines(content)[k], port, protocol, inode);
}

} // verus!
