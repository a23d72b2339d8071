//! The log record format: one JSON object per line.
//!
//! `{"Set":{"key":"<k>","value":"<v>"}}` and `{"Remove":{"key":"<k>"}}`, each
//! followed by a newline. Keys and values are JSON strings over the UTF-8
//! bytes of the text.
use vstd::prelude::*;
use vstd::utf8::*;
use crate::command::{Command, CommandModel};
use crate::error::KvsError;

verus! {

pub const QUOTE: u8 = 34;

pub const BACKSLASH: u8 = 92;

pub const NEWLINE: u8 = 10;

/// The lower-case hexadecimal digit of `n < 16`.
pub open spec fn hex_digit(n: u8) -> u8 {
    if n < 10 {
        (48 + n) as u8
    } else {
        (87 + n) as u8
    }
}

pub open spec fn is_hex(b: u8) -> bool {
    (48 <= b <= 57) || (97 <= b <= 102) || (65 <= b <= 70)
}

pub open spec fn hex_value(b: u8) -> u32 {
    if 48 <= b <= 57 {
        (b - 48) as u32
    } else if 97 <= b <= 102 {
        (b - 87) as u32
    } else {
        (b - 55) as u32
    }
}

/// How one byte of a string's content is written inside a JSON string.
pub open spec fn escape_byte(b: u8) -> Seq<u8> {
    if b == QUOTE {
        seq![BACKSLASH, QUOTE]
    } else if b == BACKSLASH {
        seq![BACKSLASH, BACKSLASH]
    } else if b == 8 {
        seq![BACKSLASH, 98u8]
    } else if b == 12 {
        seq![BACKSLASH, 102u8]
    } else if b == NEWLINE {
        seq![BACKSLASH, 110u8]
    } else if b == 13 {
        seq![BACKSLASH, 114u8]
    } else if b == 9 {
        seq![BACKSLASH, 116u8]
    } else if b < 32 {
        seq![BACKSLASH, 117u8, 48u8, 48u8, hex_digit(b / 16), hex_digit(b % 16)]
    } else {
        seq![b]
    }
}

/// The escaped content of a JSON string holding the bytes `s`.
pub open spec fn escape(s: Seq<u8>) -> Seq<u8>
    decreases s.len(),
{
    if s.len() == 0 {
        Seq::empty()
    } else {
        escape_byte(s[0]) + escape(s.drop_first())
    }
}

/// The byte that a two-character escape `\e` stands for.
pub open spec fn short_escape(e: u8) -> Option<u8> {
    if e == QUOTE {
        Some(QUOTE)
    } else if e == BACKSLASH {
        Some(BACKSLASH)
    } else if e == 47 {
        Some(47u8)
    } else if e == 98 {
        Some(8u8)
    } else if e == 102 {
        Some(12u8)
    } else if e == 110 {
        Some(NEWLINE)
    } else if e == 114 {
        Some(13u8)
    } else if e == 116 {
        Some(9u8)
    } else {
        None
    }
}

/// The UTF-8 bytes of a code point below 0x10000 that is not a surrogate.
pub open spec fn code_point_bytes(c: u32) -> Seq<u8> {
    if c < 0x80 {
        seq![c as u8]
    } else if c < 0x800 {
        seq![(0xC0 + c / 64) as u8, (0x80 + c % 64) as u8]
    } else {
        seq![(0xE0 + c / 4096) as u8, (0x80 + (c / 64) % 64) as u8, (0x80 + c % 64) as u8]
    }
}

/// The UTF-8 bytes of the code point that a surrogate pair stands for.
pub open spec fn pair_bytes(hi: u32, lo: u32) -> Seq<u8> {
    let c = 0x10000 + (hi - 0xD800) * 1024 + (lo - 0xDC00);
    seq![
        (0xF0 + c / 262144) as u8,
        (0x80 + (c / 4096) % 64) as u8,
        (0x80 + (c / 64) % 64) as u8,
        (0x80 + c % 64) as u8,
    ]
}

pub open spec fn hex4_at(s: Seq<u8>, i: int) -> bool {
    0 <= i && i + 4 <= s.len() && is_hex(s[i]) && is_hex(s[i + 1]) && is_hex(s[i + 2]) && is_hex(
        s[i + 3],
    )
}

pub open spec fn hex4_value(s: Seq<u8>, i: int) -> u32 {
    (hex_value(s[i]) * 4096 + hex_value(s[i + 1]) * 256 + hex_value(s[i + 2]) * 16 + hex_value(
        s[i + 3],
    )) as u32
}

pub open spec fn prepend(a: Seq<u8>, o: Option<(Seq<u8>, int)>) -> Option<(Seq<u8>, int)> {
    match o {
        Some((r, e)) => Some((a + r, e)),
        None => None,
    }
}

/// Reads the rest of a JSON string whose content starts at `i` (just after
/// the opening quote): the bytes it stands for and the index just after its
/// closing quote. `None` where the string is malformed or not closed.
pub open spec fn unescape_from(s: Seq<u8>, i: int) -> Option<(Seq<u8>, int)>
    decreases s.len() - i,
{
    if i < 0 || i >= s.len() {
        None
    } else if s[i] == QUOTE {
        Some((Seq::empty(), i + 1))
    } else if s[i] == BACKSLASH {
        if i + 1 >= s.len() {
            None
        } else if s[i + 1] == 117 {
            if !hex4_at(s, i + 2) {
                None
            } else if 0xD800 <= hex4_value(s, i + 2) < 0xDC00 {
                if i + 8 <= s.len() && s[i + 6] == BACKSLASH && s[i + 7] == 117 && hex4_at(s, i + 8)
                    && 0xDC00 <= hex4_value(s, i + 8) < 0xE000 {
                    prepend(
                        pair_bytes(hex4_value(s, i + 2), hex4_value(s, i + 8)),
                        unescape_from(s, i + 12),
                    )
                } else {
                    None
                }
            } else if 0xDC00 <= hex4_value(s, i + 2) < 0xE000 {
                None
            } else {
                prepend(code_point_bytes(hex4_value(s, i + 2)), unescape_from(s, i + 6))
            }
        } else {
            match short_escape(s[i + 1]) {
                Some(b) => prepend(seq![b], unescape_from(s, i + 2)),
                None => None,
            }
        }
    } else if s[i] < 32 {
        None
    } else {
        prepend(seq![s[i]], unescape_from(s, i + 1))
    }
}

proof fn lemma_hex_round_trip(n: u8)
    requires
        n < 16,
    ensures
        is_hex(hex_digit(n)),
        hex_value(hex_digit(n)) == n as u32,
{
}

/// Escaping never writes a raw newline.
pub proof fn lemma_escape_no_newline(s: Seq<u8>)
    ensures
        forall|j: int| 0 <= j < escape(s).len() ==> escape(s)[j] != NEWLINE,
    decreases s.len(),
{
    if s.len() > 0 {
        lemma_escape_no_newline(s.drop_first());
        let b = s[0];
        if b < 32 && b != 8 && b != 12 && b != NEWLINE && b != 13 && b != 9 {
            lemma_hex_round_trip(b / 16);
            lemma_hex_round_trip(b % 16);
        }
        assert forall|j: int| 0 <= j < escape(s).len() implies escape(s)[j] != NEWLINE by {
            if j >= escape_byte(b).len() {
                assert(escape(s)[j] == escape(s.drop_first())[j - escape_byte(b).len()]);
            }
        }
    }
}

/// Escaping pushes one byte's escape at the end.
pub proof fn lemma_escape_push(s: Seq<u8>, b: u8)
    ensures
        escape(s.push(b)) == escape(s) + escape_byte(b),
    decreases s.len(),
{
    if s.len() == 0 {
        assert(s.push(b).drop_first() =~= Seq::<u8>::empty());
        assert(escape(s.push(b).drop_first()) == Seq::<u8>::empty());
        assert(s.push(b)[0] == b);
        assert(escape(s) == Seq::<u8>::empty());
        assert(escape(s.push(b)) =~= escape(s) + escape_byte(b));
    } else {
        assert(s.push(b).drop_first() =~= s.drop_first().push(b));
        lemma_escape_push(s.drop_first(), b);
        assert(escape(s.push(b)) =~= escape(s) + escape_byte(b));
    }
}

/// A string written by `escape` and closed by a quote reads back as itself.
#[verifier::rlimit(100)]
pub proof fn lemma_unescape_escape(p: Seq<u8>, s: Seq<u8>, rest: Seq<u8>)
    ensures
        unescape_from(p + escape(s) + seq![QUOTE] + rest, p.len() as int) == Some(
            (s, (p.len() + escape(s).len() + 1) as int),
        ),
    decreases s.len(),
{
    let t = p + escape(s) + seq![QUOTE] + rest;
    let i = p.len() as int;
    if s.len() == 0 {
        assert(t[i] == QUOTE);
        assert(s =~= Seq::<u8>::empty());
    } else {
        let b = s[0];
        let e = escape_byte(b);
        let p2 = p + e;
        assert(t =~= p2 + escape(s.drop_first()) + seq![QUOTE] + rest);
        lemma_unescape_escape(p2, s.drop_first(), rest);
        let tail = unescape_from(t, p2.len() as int);
        assert(tail == Some((s.drop_first(), (p2.len() + escape(s.drop_first()).len() + 1) as int)));
        assert(seq![b] + s.drop_first() =~= s);
        if b < 32 && b != 8 && b != 12 && b != NEWLINE && b != 13 && b != 9 {
            lemma_hex_round_trip(b / 16);
            lemma_hex_round_trip(b % 16);
            assert(t[i] == BACKSLASH);
            assert(t[i + 1] == 117);
            assert(t[i + 2] == 48u8 && t[i + 3] == 48u8);
            assert(t[i + 4] == hex_digit(b / 16) && t[i + 5] == hex_digit(b % 16));
            assert(hex4_at(t, i + 2));
            assert(hex4_value(t, i + 2) == b as u32);
            assert(code_point_bytes(b as u32) =~= seq![b]);
        } else if b == QUOTE || b == BACKSLASH || b == 8 || b == 12 || b == NEWLINE || b == 13 || b
            == 9 {
            assert(t[i] == BACKSLASH);
            assert(t[i + 1] == e[1]);
        } else {
            assert(t[i] == b);
        }
    }
}


/// `{"Set":{"key":"`
pub open spec fn set_head() -> Seq<u8> {
    seq![123u8, 34, 83, 101, 116, 34, 58, 123, 34, 107, 101, 121, 34, 58, 34]
}

/// `{"Remove":{"key":"`
pub open spec fn remove_head() -> Seq<u8> {
    seq![123u8, 34, 82, 101, 109, 111, 118, 101, 34, 58, 123, 34, 107, 101, 121, 34, 58, 34]
}

/// `,"value":"`
pub open spec fn value_label() -> Seq<u8> {
    seq![44u8, 34, 118, 97, 108, 117, 101, 34, 58, 34]
}

/// `}}`
pub open spec fn record_close() -> Seq<u8> {
    seq![125u8, 125]
}

pub open spec fn set_record(k: Seq<u8>, v: Seq<u8>) -> Seq<u8> {
    set_head() + escape(k) + seq![QUOTE] + value_label() + escape(v) + seq![QUOTE] + record_close()
        + seq![NEWLINE]
}

pub open spec fn remove_record(k: Seq<u8>) -> Seq<u8> {
    remove_head() + escape(k) + seq![QUOTE] + record_close() + seq![NEWLINE]
}

/// The bytes of the log line that records `c`.
pub open spec fn encode_model(c: CommandModel) -> Seq<u8> {
    match c {
        CommandModel::Put(k, v) => set_record(encode_utf8(k), encode_utf8(v)),
        CommandModel::Remove(k) => remove_record(encode_utf8(k)),
    }
}

pub open spec fn starts_at(s: Seq<u8>, i: int, pat: Seq<u8>) -> bool {
    0 <= i && i + pat.len() <= s.len() && s.subrange(i, i + pat.len()) == pat
}

/// The rest of `s` from `i` on is exactly `}}`.
pub open spec fn closes_at(s: Seq<u8>, i: int) -> bool {
    0 <= i && i + 2 == s.len() && s[i] == 125 && s[i + 1] == 125
}

/// A line without its terminating newline, if it has one.
pub open spec fn record_body(line: Seq<u8>) -> Seq<u8> {
    if line.len() > 0 && line.last() == NEWLINE {
        line.drop_last()
    } else {
        line
    }
}

pub open spec fn decode_body(s: Seq<u8>) -> Option<CommandModel> {
    if starts_at(s, 0, set_head()) {
        match unescape_from(s, set_head().len() as int) {
            Some((kb, i)) => if starts_at(s, i, value_label()) {
                match unescape_from(s, i + value_label().len()) {
                    Some((vb, j)) => if closes_at(s, j) && valid_utf8(kb) && valid_utf8(vb) {
                        Some(CommandModel::Put(decode_utf8(kb), decode_utf8(vb)))
                    } else {
                        None
                    },
                    None => None,
                }
            } else {
                None
            },
            None => None,
        }
    } else if starts_at(s, 0, remove_head()) {
        match unescape_from(s, remove_head().len() as int) {
            Some((kb, i)) => if closes_at(s, i) && valid_utf8(kb) {
                Some(CommandModel::Remove(decode_utf8(kb)))
            } else {
                None
            },
            None => None,
        }
    } else {
        None
    }
}

/// The command that a log line records, with or without its newline; `None`
/// where the line is not a record.
#[verifier::opaque]
pub open spec fn decode_record(line: Seq<u8>) -> Option<CommandModel> {
    decode_body(record_body(line))
}

/// A log line: it ends with its only newline.
pub open spec fn is_line(line: Seq<u8>) -> bool {
    &&& line.len() > 0
    &&& line.last() == NEWLINE
    &&& forall|j: int| 0 <= j < line.len() - 1 ==> line[j] != NEWLINE
}

proof fn lemma_set_line(kb: Seq<u8>, vb: Seq<u8>)
    ensures
        is_line(set_record(kb, vb)),
{
    let line = set_record(kb, vb);
    let p2 = set_head() + escape(kb) + seq![QUOTE] + value_label();
    assert(line =~= p2 + escape(vb) + seq![QUOTE] + record_close() + seq![NEWLINE]);
    lemma_escape_no_newline(kb);
    lemma_escape_no_newline(vb);
    assert forall|x: int| 0 <= x < line.len() - 1 implies line[x] != NEWLINE by {
        if set_head().len() <= x < set_head().len() + escape(kb).len() {
            assert(line[x] == escape(kb)[x - set_head().len()]);
        } else if p2.len() <= x < p2.len() + escape(vb).len() {
            assert(line[x] == escape(vb)[x - p2.len()]);
        }
    }
}

#[verifier::rlimit(40)]
proof fn lemma_set_record(kb: Seq<u8>, vb: Seq<u8>)
    requires
        valid_utf8(kb),
        valid_utf8(vb),
    ensures
        decode_record(set_record(kb, vb)) == Some(CommandModel::Put(decode_utf8(kb), decode_utf8(vb))),
        is_line(set_record(kb, vb)),
{
    reveal(decode_record);
    lemma_set_line(kb, vb);
    let line = set_record(kb, vb);
    let rest1 = value_label() + escape(vb) + seq![QUOTE] + record_close();
    let body = set_head() + escape(kb) + seq![QUOTE] + rest1;
    assert(line =~= body.push(NEWLINE));
    assert(record_body(line) =~= body);
    assert(body.subrange(0, set_head().len() as int) =~= set_head());
    lemma_unescape_escape(set_head(), kb, rest1);
    let i = (set_head().len() + escape(kb).len() + 1) as int;
    assert(unescape_from(body, set_head().len() as int) == Some((kb, i)));
    assert(body.subrange(i, i + value_label().len() as int) =~= value_label());
    let p2 = set_head() + escape(kb) + seq![QUOTE] + value_label();
    assert(body =~= p2 + escape(vb) + seq![QUOTE] + record_close());
    lemma_unescape_escape(p2, vb, record_close());
    let j = (p2.len() + escape(vb).len() + 1) as int;
    assert(i + value_label().len() == p2.len());
    assert(unescape_from(body, i + value_label().len()) == Some((vb, j)));
    assert(closes_at(body, j));
}

#[verifier::rlimit(40)]
proof fn lemma_remove_record(kb: Seq<u8>)
    requires
        valid_utf8(kb),
    ensures
        decode_record(remove_record(kb)) == Some(CommandModel::Remove(decode_utf8(kb))),
        is_line(remove_record(kb)),
{
    reveal(decode_record);
    let line = remove_record(kb);
    let body = remove_head() + escape(kb) + seq![QUOTE] + record_close();
    assert(line =~= body.push(NEWLINE));
    assert(record_body(line) =~= body);
    assert(body[2] == 82);
    assert(!starts_at(body, 0, set_head())) by {
        if starts_at(body, 0, set_head()) {
            assert(body.subrange(0, set_head().len() as int)[2] == body[2]);
        }
    }
    assert(body.subrange(0, remove_head().len() as int) =~= remove_head());
    lemma_unescape_escape(remove_head(), kb, record_close());
    let i = (remove_head().len() + escape(kb).len() + 1) as int;
    assert(closes_at(body, i));
    lemma_escape_no_newline(kb);
    assert forall|x: int| 0 <= x < line.len() - 1 implies line[x] != NEWLINE by {
        if remove_head().len() <= x < remove_head().len() + escape(kb).len() {
            assert(line[x] == escape(kb)[x - remove_head().len()]);
        }
    }
}

/// A record reads back as the command it was written from, and is one line.
pub proof fn lemma_decode_encode(c: CommandModel)
    ensures
        decode_record(encode_model(c)) == Some(c),
        is_line(encode_model(c)),
{
    broadcast use encode_utf8_valid_utf8, encode_utf8_decode_utf8;

    match c {
        CommandModel::Put(k, v) => lemma_set_record(encode_utf8(k), encode_utf8(v)),
        CommandModel::Remove(k) => lemma_remove_record(encode_utf8(k)),
    }
}

proof fn lemma_prepend_assoc(a: Seq<u8>, b: Seq<u8>, o: Option<(Seq<u8>, int)>)
    ensures
        prepend(a, prepend(b, o)) == prepend(a + b, o),
{
    match o {
        Some((r, e)) => {
            assert(a + (b + r) =~= (a + b) + r);
        },
        None => {},
    }
}

fn push_all(out: &mut Vec<u8>, src: &[u8])
    ensures
        final(out)@ == old(out)@ + src@,
{
    let mut i: usize = 0;
    while i < src.len()
        invariant
            i <= src@.len(),
            out@ == old(out)@ + src@.subrange(0, i as int),
        decreases src@.len() - i,
    {
        out.push(src[i]);
        i = i + 1;
        assert(src@.subrange(0, i as int) =~= src@.subrange(0, i - 1 as int).push(src@[i - 1]));
    }
    assert(src@.subrange(0, i as int) =~= src@);
}

fn hex_digit_exec(n: u8) -> (r: u8)
    requires
        n < 16,
    ensures
        r == hex_digit(n),
{
    if n < 10 {
        48 + n
    } else {
        87 + n
    }
}

/// Appends the escaped form of `b` to `out`.
fn escape_byte_into(out: &mut Vec<u8>, b: u8)
    ensures
        final(out)@ == old(out)@ + escape_byte(b),
{
    let e: Vec<u8> = if b == QUOTE {
        vec![BACKSLASH, QUOTE]
    } else if b == BACKSLASH {
        vec![BACKSLASH, BACKSLASH]
    } else if b == 8 {
        vec![BACKSLASH, 98u8]
    } else if b == 12 {
        vec![BACKSLASH, 102u8]
    } else if b == NEWLINE {
        vec![BACKSLASH, 110u8]
    } else if b == 13 {
        vec![BACKSLASH, 114u8]
    } else if b == 9 {
        vec![BACKSLASH, 116u8]
    } else if b < 32 {
        vec![BACKSLASH, 117u8, 48u8, 48u8, hex_digit_exec(b / 16), hex_digit_exec(b % 16)]
    } else {
        vec![b]
    };
    assert(e@ =~= escape_byte(b));
    push_all(out, e.as_slice());
}

/// Appends the escaped content of a JSON string holding `s` to `out`.
pub fn escape_into(out: &mut Vec<u8>, s: &[u8])
    ensures
        final(out)@ == old(out)@ + escape(s@),
{
    let mut i: usize = 0;
    while i < s.len()
        invariant
            i <= s@.len(),
            out@ == old(out)@ + escape(s@.subrange(0, i as int)),
        decreases s@.len() - i,
    {
        proof {
            lemma_escape_push(s@.subrange(0, i as int), s@[i as int]);
            assert(s@.subrange(0, i as int).push(s@[i as int]) =~= s@.subrange(0, i + 1));
        }
        escape_byte_into(out, s[i]);
        i = i + 1;
        assert(out@ =~= old(out)@ + escape(s@.subrange(0, i as int)));
    }
    assert(s@.subrange(0, i as int) =~= s@);
}

/// The log line that records `c`.
pub fn encode_command(c: &Command) -> (r: Vec<u8>)
    ensures
        r@ == encode_model(c@),
{
    let mut out: Vec<u8> = Vec::new();
    match c {
        Command::Put { key, value } => {
            let head: Vec<u8> = vec![123u8, 34, 83, 101, 116, 34, 58, 123, 34, 107, 101, 121, 34, 58, 34];
            assert(head@ =~= set_head());
            push_all(&mut out, head.as_slice());
            escape_into(&mut out, key.as_str().as_bytes());
            let label: Vec<u8> = vec![QUOTE, 44u8, 34, 118, 97, 108, 117, 101, 34, 58, 34];
            assert(label@ =~= seq![QUOTE] + value_label());
            push_all(&mut out, label.as_slice());
            escape_into(&mut out, value.as_str().as_bytes());
            let close: Vec<u8> = vec![QUOTE, 125u8, 125, NEWLINE];
            push_all(&mut out, close.as_slice());
            assert(out@ =~= encode_model(c@));
        },
        Command::Remove { key } => {
            let head: Vec<u8> = vec![123u8, 34, 82, 101, 109, 111, 118, 101, 34, 58, 123, 34, 107, 101, 121, 34, 58, 34];
            assert(head@ =~= remove_head());
            push_all(&mut out, head.as_slice());
            escape_into(&mut out, key.as_str().as_bytes());
            let close: Vec<u8> = vec![QUOTE, 125u8, 125, NEWLINE];
            push_all(&mut out, close.as_slice());
            assert(out@ =~= encode_model(c@));
        },
    }
    out
}

fn hex_value_exec(b: u8) -> (r: Option<u32>)
    ensures
        r == (if is_hex(b) { Some(hex_value(b)) } else { None::<u32> }),
{
    if 48 <= b && b <= 57 {
        Some((b - 48) as u32)
    } else if 97 <= b && b <= 102 {
        Some((b - 87) as u32)
    } else if 65 <= b && b <= 70 {
        Some((b - 55) as u32)
    } else {
        None
    }
}

fn short_escape_exec(e: u8) -> (r: Option<u8>)
    ensures
        r == short_escape(e),
{
    if e == QUOTE {
        Some(QUOTE)
    } else if e == BACKSLASH {
        Some(BACKSLASH)
    } else if e == 47 {
        Some(47u8)
    } else if e == 98 {
        Some(8u8)
    } else if e == 102 {
        Some(12u8)
    } else if e == 110 {
        Some(NEWLINE)
    } else if e == 114 {
        Some(13u8)
    } else if e == 116 {
        Some(9u8)
    } else {
        None
    }
}

fn push_code_point(out: &mut Vec<u8>, c: u32)
    requires
        c < 0x10000,
    ensures
        final(out)@ == old(out)@ + code_point_bytes(c),
{
    if c < 0x80 {
        out.push(c as u8);
    } else if c < 0x800 {
        out.push((0xC0 + c / 64) as u8);
        out.push((0x80 + c % 64) as u8);
    } else {
        out.push((0xE0 + c / 4096) as u8);
        out.push((0x80 + (c / 64) % 64) as u8);
        out.push((0x80 + c % 64) as u8);
    }
    assert(final(out)@ =~= old(out)@ + code_point_bytes(c));
}

/// The low surrogate of a `\uXXXX` escape at `j`, if one stands there.
fn low_surrogate_at(s: &[u8], j: usize) -> (r: Option<u32>)
    requires
        j <= s@.len(),
    ensures
        match r {
            Some(lo) => j + 6 <= s@.len() && s@[j as int] == BACKSLASH && s@[j + 1] == 117
                && hex4_at(s@, j + 2) && lo == hex4_value(s@, j + 2) && 0xDC00 <= lo < 0xE000,
            None => !(j + 6 <= s@.len() && s@[j as int] == BACKSLASH && s@[j + 1] == 117
                && hex4_at(s@, j + 2) && 0xDC00 <= hex4_value(s@, j + 2) < 0xE000),
        },
{
    if s.len() - j < 6 || s[j] != BACKSLASH || s[j + 1] != 117 {
        return None;
    }
    let h0 = hex_value_exec(s[j + 2]);
    let h1 = hex_value_exec(s[j + 3]);
    let h2 = hex_value_exec(s[j + 4]);
    let h3 = hex_value_exec(s[j + 5]);
    match (h0, h1, h2, h3) {
        (Some(a), Some(b), Some(c), Some(d)) => {
            let lo: u32 = a * 4096 + b * 256 + c * 16 + d;
            if 0xDC00 <= lo && lo < 0xE000 {
                Some(lo)
            } else {
                None
            }
        },
        _ => None,
    }
}

fn push_pair(out: &mut Vec<u8>, hi: u32, lo: u32)
    requires
        0xD800 <= hi < 0xDC00,
        0xDC00 <= lo < 0xE000,
    ensures
        final(out)@ == old(out)@ + pair_bytes(hi, lo),
{
    let c: u32 = 0x10000 + (hi - 0xD800) * 1024 + (lo - 0xDC00);
    out.push((0xF0 + c / 262144) as u8);
    out.push((0x80 + (c / 4096) % 64) as u8);
    out.push((0x80 + (c / 64) % 64) as u8);
    out.push((0x80 + c % 64) as u8);
    assert(final(out)@ =~= old(out)@ + pair_bytes(hi, lo));
}

/// Reads the JSON string whose content starts at `start`: the bytes it
/// stands for and the index just after its closing quote.
#[verifier::rlimit(100)]
pub fn unescape(s: &[u8], start: usize) -> (r: Option<(Vec<u8>, usize)>)
    ensures
        match r {
            Some((v, e)) => unescape_from(s@, start as int) == Some((v@, e as int)) && e
                <= s@.len(),
            None => unescape_from(s@, start as int) is None,
        },
{
    let mut acc: Vec<u8> = Vec::new();
    let mut i: usize = start;
    assert(acc@ + Seq::<u8>::empty() =~= acc@);
    proof {
        match unescape_from(s@, i as int) {
            Some((r, e)) => {
                assert(Seq::<u8>::empty() + r =~= r);
            },
            None => {},
        }
    }
    while i < s.len()
        invariant
            start <= i,
            unescape_from(s@, start as int) == prepend(acc@, unescape_from(s@, i as int)),
        decreases s@.len() - i,
    {
        let b = s[i];
        if b == QUOTE {
            assert(acc@ + Seq::<u8>::empty() =~= acc@);
            return Some((acc, i + 1));
        } else if b == BACKSLASH {
            if i + 1 >= s.len() {
                return None;
            }
            let e = s[i + 1];
            if e == 117 {
                if s.len() - i < 6 {
                    return None;
                }
                let h0 = hex_value_exec(s[i + 2]);
                let h1 = hex_value_exec(s[i + 3]);
                let h2 = hex_value_exec(s[i + 4]);
                let h3 = hex_value_exec(s[i + 5]);
                match (h0, h1, h2, h3) {
                    (Some(a), Some(b1), Some(c), Some(d)) => {
                        let cp: u32 = a * 4096 + b1 * 256 + c * 16 + d;
                        assert(hex4_at(s@, i + 2));
                        assert(cp == hex4_value(s@, i + 2));
                        if 0xD800 <= cp && cp < 0xDC00 {
                            let lo = match low_surrogate_at(s, i + 6) {
                                Some(lo) => lo,
                                None => {
                                    return None;
                                },
                            };
                            let ghost before = acc@;
                            push_pair(&mut acc, cp, lo);
                            proof {
                                lemma_prepend_assoc(before, pair_bytes(cp, lo), unescape_from(s@, i + 12));
                            }
                            i = i + 12;
                        } else if 0xDC00 <= cp && cp < 0xE000 {
                            return None;
                        } else {
                            let ghost before = acc@;
                            push_code_point(&mut acc, cp);
                            proof {
                                lemma_prepend_assoc(before, code_point_bytes(cp), unescape_from(s@, i + 6));
                            }
                            i = i + 6;
                        }
                    },
                    _ => {
                        assert(!hex4_at(s@, i + 2));
                        return None;
                    },
                }
            } else {
                match short_escape_exec(e) {
                    Some(x) => {
                        let ghost before = acc@;
                        acc.push(x);
                        proof {
                            lemma_prepend_assoc(before, seq![x], unescape_from(s@, i + 2));
                            assert(before + seq![x] =~= acc@);
                        }
                        i = i + 2;
                    },
                    None => {
                        return None;
                    },
                }
            }
        } else if b < 32 {
            return None;
        } else {
            let ghost before = acc@;
            acc.push(b);
            proof {
                lemma_prepend_assoc(before, seq![b], unescape_from(s@, i + 1));
                assert(before + seq![b] =~= acc@);
            }
            i = i + 1;
        }
    }
    None
}

/// Relies on `String::from_utf8`: it accepts exactly the byte sequences that
/// are well-formed UTF-8, and the `String` it returns holds the characters
/// that they encode.
#[verifier::external_body]
fn text_from_utf8(b: Vec<u8>) -> (r: Option<String>)
    ensures
        r is Some <==> valid_utf8(b@),
        r matches Some(t) ==> t@ == decode_utf8(b@),
{
    String::from_utf8(b).ok()
}

fn prefix_of(s: &[u8], n: usize) -> (r: Vec<u8>)
    requires
        n <= s@.len(),
    ensures
        r@ == s@.subrange(0, n as int),
{
    let mut out: Vec<u8> = Vec::new();
    let mut i: usize = 0;
    while i < n
        invariant
            i <= n <= s@.len(),
            out@ == s@.subrange(0, i as int),
        decreases n - i,
    {
        out.push(s[i]);
        i = i + 1;
        assert(out@ =~= s@.subrange(0, i as int));
    }
    out
}

fn matches_at(s: &[u8], i: usize, pat: &[u8]) -> (r: bool)
    ensures
        r == starts_at(s@, i as int, pat@),
{
    if i > s.len() || s.len() - i < pat.len() {
        return false;
    }
    let slen = s.len();
    let mut j: usize = 0;
    while j < pat.len()
        invariant
            slen == s@.len(),
            i + pat@.len() <= s@.len(),
            j <= pat@.len(),
            forall|x: int| 0 <= x < j ==> s@[i + x] == pat@[x],
        decreases pat@.len() - j,
    {
        if s[i + j] != pat[j] {
            assert(s@.subrange(i as int, i + pat@.len())[j as int] != pat@[j as int]);
            return false;
        }
        j = j + 1;
    }
    assert(s@.subrange(i as int, i + pat@.len()) =~= pat@);
    true
}

fn closes_exec(s: &[u8], i: usize) -> (r: bool)
    ensures
        r == closes_at(s@, i as int),
{
    i <= s.len() && s.len() - i == 2 && s[i] == 125 && s[i + 1] == 125
}

/// The command that a log line records. The line may end with its newline
/// or not.
pub fn decode_command(line: &[u8]) -> (r: Result<Command, KvsError>)
    ensures
        match r {
            Ok(c) => decode_record(line@) == Some(c@),
            Err(e) => decode_record(line@) is None && e == KvsError::Codec,
        },
{
    reveal(decode_record);
    let n: usize = if line.len() > 0 && line[line.len() - 1] == NEWLINE {
        line.len() - 1
    } else {
        line.len()
    };
    let body = prefix_of(line, n);
    let b = body.as_slice();
    assert(b@ =~= record_body(line@));
    let set_h: Vec<u8> = vec![123u8, 34, 83, 101, 116, 34, 58, 123, 34, 107, 101, 121, 34, 58, 34];
    let remove_h: Vec<u8> = vec![123u8, 34, 82, 101, 109, 111, 118, 101, 34, 58, 123, 34, 107, 101, 121, 34, 58, 34];
    let label: Vec<u8> = vec![44u8, 34, 118, 97, 108, 117, 101, 34, 58, 34];
    assert(set_h@ =~= set_head());
    assert(remove_h@ =~= remove_head());
    assert(label@ =~= value_label());
    if matches_at(b, 0, set_h.as_slice()) {
        let (kb, i) = match unescape(b, set_h.len()) {
            Some(x) => x,
            None => {
                return Err(KvsError::Codec);
            },
        };
        if !matches_at(b, i, label.as_slice()) {
            return Err(KvsError::Codec);
        }
        let (vb, j) = match unescape(b, i + label.len()) {
            Some(x) => x,
            None => {
                return Err(KvsError::Codec);
            },
        };
        if !closes_exec(b, j) {
            return Err(KvsError::Codec);
        }
        let key = match text_from_utf8(kb) {
            Some(t) => t,
            None => {
                return Err(KvsError::Codec);
            },
        };
        let value = match text_from_utf8(vb) {
            Some(t) => t,
            None => {
                return Err(KvsError::Codec);
            },
        };
        Ok(Command::Put { key, value })
    } else if matches_at(b, 0, remove_h.as_slice()) {
        let (kb, i) = match unescape(b, remove_h.len()) {
            Some(x) => x,
            None => {
                return Err(KvsError::Codec);
            },
        };
        if !closes_exec(b, i) {
            return Err(KvsError::Codec);
        }
        let key = match text_from_utf8(kb) {
            Some(t) => t,
            None => {
                return Err(KvsError::Codec);
            },
        };
        Ok(Command::Remove { key })
    } else {
        Err(KvsError::Codec)
    }
}

} // verus!
