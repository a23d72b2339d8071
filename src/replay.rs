//! What a log says: the store's contents after its records are applied in
//! order, generation after generation.
use vstd::prelude::*;
use crate::codec::{decode_record, is_line, NEWLINE};
use crate::command::{apply, CommandModel};
use crate::positional::{line_len, lemma_line_len_append, lemma_line_len_bounds, lemma_line_len_of_line};

verus! {

/// The contents of the store after the records of one log, one per line,
/// starting from `m`; `None` where a line does not decode.
pub open spec fn replay_bytes(m: Map<Seq<char>, Seq<char>>, d: Seq<u8>) -> Option<
    Map<Seq<char>, Seq<char>>,
>
    decreases d.len(),
    via replay_bytes_decreases
{
    if d.len() == 0 {
        Some(m)
    } else {
        match decode_record(d.take(line_len(d) as int)) {
            Some(c) => replay_bytes(apply(m, c), d.skip(line_len(d) as int)),
            None => None,
        }
    }
}

#[via_fn]
proof fn replay_bytes_decreases(m: Map<Seq<char>, Seq<char>>, d: Seq<u8>) {
    lemma_line_len_bounds(d);
}

/// The contents of the store after the logs, oldest first.
pub open spec fn replay_logs(m: Map<Seq<char>, Seq<char>>, logs: Seq<Seq<u8>>) -> Option<
    Map<Seq<char>, Seq<char>>,
>
    decreases logs.len(),
{
    if logs.len() == 0 {
        Some(m)
    } else {
        match replay_bytes(m, logs[0]) {
            Some(m2) => replay_logs(m2, logs.drop_first()),
            None => None,
        }
    }
}

/// A log that ends between records: empty, or with a newline.
pub open spec fn is_complete(d: Seq<u8>) -> bool {
    d.len() == 0 || d.last() == NEWLINE
}

/// Appending one record to a complete log applies its command last.
pub proof fn lemma_replay_append_line(
    m: Map<Seq<char>, Seq<char>>,
    d: Seq<u8>,
    line: Seq<u8>,
    c: CommandModel,
)
    requires
        is_complete(d),
        is_line(line),
        decode_record(line) == Some(c),
    ensures
        replay_bytes(m, d + line) == match replay_bytes(m, d) {
            Some(m2) => Some(apply(m2, c)),
            None => None,
        },
    decreases d.len(),
{
    if d.len() == 0 {
        assert(d + line =~= line);
        lemma_line_len_of_line(line);
        assert(line.take(line.len() as int) =~= line);
        assert(line.skip(line.len() as int) =~= Seq::<u8>::empty());
        assert(replay_bytes(apply(m, c), Seq::<u8>::empty()) == Some(apply(m, c)));
        assert(replay_bytes(m, d) == Some(m));
    } else {
        lemma_line_len_append(d, line);
        lemma_line_len_bounds(d);
        let n = line_len(d) as int;
        assert((d + line).take(n) =~= d.take(n));
        assert((d + line).skip(n) =~= d.skip(n) + line);
        match decode_record(d.take(n)) {
            Some(c0) => {
                assert(d.skip(n).len() == 0 || d.skip(n).last() == d.last());
                lemma_replay_append_line(apply(m, c0), d.skip(n), line, c);
                assert(replay_bytes(m, d + line) == replay_bytes(apply(m, c0), d.skip(n) + line));
                assert(replay_bytes(m, d) == replay_bytes(apply(m, c0), d.skip(n)));
            },
            None => {},
        }
    }
}

/// Replaying one more log continues from where the others left off.
pub proof fn lemma_replay_logs_push(m: Map<Seq<char>, Seq<char>>, logs: Seq<Seq<u8>>, d: Seq<u8>)
    ensures
        replay_logs(m, logs.push(d)) == match replay_logs(m, logs) {
            Some(m2) => replay_bytes(m2, d),
            None => None,
        },
    decreases logs.len(),
{
    if logs.len() == 0 {
        assert(logs.push(d).drop_first() =~= Seq::<Seq<u8>>::empty());
        assert(logs.push(d)[0] == d);
        match replay_bytes(m, d) {
            Some(m2) => {
                assert(replay_logs(m2, Seq::<Seq<u8>>::empty()) == Some(m2));
            },
            None => {},
        }
    } else {
        assert(logs.push(d).drop_first() =~= logs.drop_first().push(d));
        assert(logs.push(d)[0] == logs[0]);
        match replay_bytes(m, logs[0]) {
            Some(m2) => lemma_replay_logs_push(m2, logs.drop_first(), d),
            None => {},
        }
    }
}

/// A log that does not replay spoils every run of logs that holds it.
pub proof fn lemma_replay_logs_fail(m: Map<Seq<char>, Seq<char>>, a: Seq<Seq<u8>>, b: Seq<Seq<u8>>)
    requires
        replay_logs(m, a) is None,
    ensures
        replay_logs(m, a + b) is None,
    decreases a.len(),
{
    if a.len() > 0 {
        assert((a + b).drop_first() =~= a.drop_first() + b);
        assert((a + b)[0] == a[0]);
        match replay_bytes(m, a[0]) {
            Some(m2) => lemma_replay_logs_fail(m2, a.drop_first(), b),
            None => {},
        }
    }
}

} // verus!
