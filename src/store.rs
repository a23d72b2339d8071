//! The store: an index over append-only logs, one per generation.
use vstd::prelude::*;
use crate::codec::{
    decode_command, decode_record, encode_command, encode_model, is_line, lemma_decode_encode,
};
use crate::command::{apply, Command, CommandModel};
use crate::error::KvsError;
use crate::index::{
    find_key, index_map, index_ok, lemma_index_grow, lemma_index_map_push, lemma_index_map_remove,
    lemma_index_map_update, lemma_index_new_log, lemma_index_push, lemma_index_remove,
    lemma_index_update, points_to, LogSection,
};
use crate::layout::strictly_ascending;
use crate::positional::{lemma_line_len_append, lemma_line_len_bounds, lemma_line_len_of_line, line_len, rest_from, TrackingBufReader, TrackingBufWriter};
use crate::replay::{
    is_complete, lemma_replay_append_line, lemma_replay_logs_fail, lemma_replay_logs_push, replay_bytes,
    replay_logs,
};

verus! {

/// The index after replaying generation `gen`'s log `d` from offset `pos`:
/// a `Set` line at `[start, end)` points its key at `(gen, start, end -
/// start)`, a `Remove` line drops its key. Replay stops at the first line
/// that does not decode, with the lines before it applied.
pub open spec fn replay_index(
    m: Map<Seq<char>, LogSection>,
    d: Seq<u8>,
    gen: u64,
    pos: int,
) -> Map<Seq<char>, LogSection>
    decreases d.len() - pos,
    via replay_index_decreases
{
    if pos < 0 || pos >= d.len() {
        m
    } else {
        let n = line_len(d.skip(pos));
        match decode_record(d.subrange(pos, pos + n)) {
            Some(CommandModel::Put(k, _)) => replay_index(
                m.insert(k, LogSection { gen, start: pos as u64, length: n as u64 }),
                d,
                gen,
                pos + n,
            ),
            Some(CommandModel::Remove(k)) => replay_index(m.remove(k), d, gen, pos + n),
            None => m,
        }
    }
}

#[via_fn]
proof fn replay_index_decreases(m: Map<Seq<char>, LogSection>, d: Seq<u8>, gen: u64, pos: int) {
    if 0 <= pos < d.len() {
        lemma_line_len_bounds(d.skip(pos));
    }
}

/// Appending one record to a complete log whose lines all decode applies the
/// record last in the index replay: a `Set` points its key at the record.
pub proof fn lemma_replay_index_append(
    im: Map<Seq<char>, LogSection>,
    m: Map<Seq<char>, Seq<char>>,
    d: Seq<u8>,
    line: Seq<u8>,
    c: CommandModel,
    gen: u64,
    pos: int,
)
    requires
        0 <= pos <= d.len(),
        is_complete(d),
        is_line(line),
        decode_record(line) == Some(c),
        replay_bytes(m, d.skip(pos)) is Some,
    ensures
        replay_index(im, d + line, gen, pos) == match c {
            CommandModel::Put(k, _) => replay_index(im, d, gen, pos).insert(
                k,
                (LogSection { gen, start: d.len() as u64, length: line.len() as u64 }),
            ),
            CommandModel::Remove(k) => replay_index(im, d, gen, pos).remove(k),
        },
    decreases d.len() - pos,
{
    let e = d + line;
    if pos == d.len() {
        assert(e.skip(pos) =~= line);
        lemma_line_len_of_line(line);
        assert(e.subrange(pos, pos + line.len()) =~= line);
        let im2 = match c {
            CommandModel::Put(k, _) => im.insert(
                k,
                (LogSection { gen, start: d.len() as u64, length: line.len() as u64 }),
            ),
            CommandModel::Remove(k) => im.remove(k),
        };
        assert(replay_index(im2, e, gen, pos + line.len()) == im2);
    } else {
        let r = d.skip(pos);
        assert(r.last() == d.last());
        lemma_line_len_append(r, line);
        assert(e.skip(pos) =~= r + line);
        lemma_line_len_bounds(r);
        let n = line_len(r) as int;
        assert(e.subrange(pos, pos + n) =~= d.subrange(pos, pos + n));
        assert(r.take(n) =~= d.subrange(pos, pos + n));
        assert(r.skip(n) =~= d.skip(pos + n));
        let c0 = decode_record(r.take(n))->0;
        lemma_replay_index_append(
            match c0 {
                CommandModel::Put(k, _) => im.insert(
                    k,
                    (LogSection { gen, start: pos as u64, length: n as u64 }),
                ),
                CommandModel::Remove(k) => im.remove(k),
            },
            apply(m, c0),
            d,
            line,
            c,
            gen,
            pos + n,
        );
    }
}

/// Each log with its generation, oldest first.
pub open spec fn log_entries(logs: Seq<(u64, Vec<u8>)>) -> Seq<(u64, Seq<u8>)> {
    logs.map_values(|l: (u64, Vec<u8>)| (l.0, l.1@))
}

/// The index after replaying the logs in order, each from its first byte.
pub open spec fn replay_index_logs(
    m: Map<Seq<char>, LogSection>,
    logs: Seq<(u64, Seq<u8>)>,
) -> Map<Seq<char>, LogSection>
    decreases logs.len(),
{
    if logs.len() == 0 {
        m
    } else {
        replay_index(replay_index_logs(m, logs.drop_last()), logs.last().1, logs.last().0, 0)
    }
}

/// Replays one generation's log into the index, from its first byte.
pub fn load(
    index: &mut Vec<(String, LogSection)>,
    reader: &mut TrackingBufReader,
    gen: u64,
    Ghost(logs): Ghost<Map<u64, Seq<u8>>>,
    Ghost(before): Ghost<Map<Seq<char>, Seq<char>>>,
) -> (r: Result<(), KvsError>)
    requires
        index_ok(old(index)@, before, logs),
        logs.contains_key(gen),
        logs[gen] == old(reader).data(),
        old(reader).pos() == 0,
    ensures
        final(reader).data() == old(reader).data(),
        index_map(final(index)@) == replay_index(index_map(old(index)@), old(reader).data(), gen, 0),
        match r {
            Ok(_) => replay_bytes(before, old(reader).data()) is Some && index_ok(
                final(index)@,
                replay_bytes(before, old(reader).data())->0,
                logs,
            ) && final(reader).pos() == old(reader).data().len(),
            Err(e) => replay_bytes(before, old(reader).data()) is None && e == KvsError::Codec,
        },
{
    let ghost d = reader.data();
    let ghost mut cur = before;
    let mut pos: u64 = 0;
    assert(d.skip(0) =~= d);
    loop
        invariant
            reader.data() == d,
            d == old(reader).data(),
            reader.pos() == pos,
            pos <= d.len(),
            logs.contains_key(gen),
            logs[gen] == d,
            replay_bytes(before, d) == replay_bytes(cur, d.skip(pos as int)),
            index_ok(index@, cur, logs),
            replay_index(index_map(old(index)@), d, gen, 0) == replay_index(
                index_map(index@),
                d,
                gen,
                pos as int,
            ),
        decreases d.len() - pos,
    {
        let ghost rest = d.skip(pos as int);
        assert(rest_from(d, pos as int) =~= rest);
        proof {
            lemma_line_len_bounds(rest);
        }
        let mut line: Vec<u8> = Vec::new();
        let n = reader.read_line(&mut line);
        if n == 0 {
            assert(rest.len() == 0);
            assert(d.skip(pos as int).len() == d.len() - pos);
            return Ok(());
        }
        let end = reader.position();
        assert(line@ =~= rest.take(n as int));
        assert(rest.take(n as int) =~= d.subrange(pos as int, end as int));
        assert(rest.skip(n as int) =~= d.skip(end as int));
        let cmd = match decode_command(line.as_slice()) {
            Ok(c) => c,
            Err(e) => {
                return Err(e);
            },
        };
        match cmd {
            Command::Put { key, value } => {
                let sec = LogSection::new(gen, pos, end);
                assert(points_to(logs, sec, CommandModel::Put(key@, value@)));
                match find_key(index, &key) {
                    Some(p) => {
                        proof {
                            lemma_index_update(index@, cur, logs, p as int, key, value@, sec);
                            lemma_index_map_update(index@, p as int, key, sec);
                        }
                        index.set(p, (key, sec));
                    },
                    None => {
                        proof {
                            lemma_index_push(index@, cur, logs, key, value@, sec);
                            lemma_index_map_push(index@, key, sec);
                        }
                        index.push((key, sec));
                    },
                }
                proof {
                    cur = apply(cur, CommandModel::Put(key@, value@));
                }
            },
            Command::Remove { key } => {
                match find_key(index, &key) {
                    Some(p) => {
                        proof {
                            lemma_index_remove(index@, cur, logs, p as int);
                            lemma_index_map_remove(index@, p as int);
                        }
                        index.remove(p);
                    },
                    None => {
                        assert(!cur.contains_key(key@));
                        assert(cur.remove(key@) =~= cur);
                        assert(index_map(index@).remove(key@) =~= index_map(index@));
                    },
                }
                proof {
                    cur = apply(cur, CommandModel::Remove(key@));
                }
            },
        }
        pos = end;
    }
}

/// The logs' bytes, oldest generation first.
pub open spec fn log_bytes(logs: Seq<(u64, Vec<u8>)>) -> Seq<Seq<u8>> {
    logs.map_values(|l: (u64, Vec<u8>)| l.1@)
}

pub open spec fn log_generations(logs: Seq<(u64, Vec<u8>)>) -> Seq<u64> {
    logs.map_values(|l: (u64, Vec<u8>)| l.0)
}

/// The generation that a store opened on these logs writes to: one past the
/// newest, or 1 where there is none.
pub open spec fn next_generation(gens: Seq<u64>) -> int {
    if gens.len() == 0 {
        1
    } else {
        gens.last() + 1
    }
}

/// A persistent key-value store. Each mutation is appended to the log of the
/// active generation; the index maps each live key to its last `Set` record.
pub struct KvStore {
    gen: u64,
    map: Vec<(String, LogSection)>,
    writer: TrackingBufWriter,
    readers: Vec<(u64, TrackingBufReader)>,
    active: TrackingBufReader,
    unsynced: Vec<u8>,
    logs: Ghost<Map<u64, Seq<u8>>>,
    base: Ghost<Map<Seq<char>, Seq<char>>>,
    base_sections: Ghost<Map<Seq<char>, LogSection>>,
    contents: Ghost<Map<Seq<char>, Seq<char>>>,
}

impl View for KvStore {
    type V = Map<Seq<char>, Seq<char>>;

    closed spec fn view(&self) -> Map<Seq<char>, Seq<char>> {
        self.contents@
    }
}

impl KvStore {
    /// The generation that mutations are appended to.
    pub closed spec fn generation(&self) -> u64 {
        self.gen
    }

    /// The generations before the active one, ascending.
    pub closed spec fn history_generations(&self) -> Seq<u64> {
        self.readers@.map_values(|r: (u64, TrackingBufReader)| r.0)
    }

    /// The logs of the generations before the active one, oldest first.
    pub closed spec fn history(&self) -> Seq<Seq<u8>> {
        self.readers@.map_values(|r: (u64, TrackingBufReader)| r.1.data())
    }

    /// The active generation's log.
    pub closed spec fn active_log(&self) -> Seq<u8> {
        self.active.data()
    }

    /// Each live key with the section of the log that records its value.
    pub closed spec fn sections(&self) -> Map<Seq<char>, LogSection> {
        index_map(self.map@)
    }

    /// The logs of the generations before the active one, each with its
    /// generation, oldest first.
    pub closed spec fn history_entries(&self) -> Seq<(u64, Seq<u8>)> {
        self.readers@.map_values(|r: (u64, TrackingBufReader)| (r.0, r.1.data()))
    }

    /// Every log with its generation, oldest first; the active one last.
    pub open spec fn log_entries(&self) -> Seq<(u64, Seq<u8>)> {
        self.history_entries().push((self.generation(), self.active_log()))
    }

    /// Every log, oldest first; the active one last.
    pub open spec fn log_data(&self) -> Seq<Seq<u8>> {
        self.history().push(self.active_log())
    }

    /// Bytes appended to the active log that the host has not yet taken.
    pub closed spec fn pending(&self) -> Seq<u8> {
        self.unsynced@
    }

    pub closed spec fn wf(&self) -> bool {
        &&& strictly_ascending(self.history_generations())
        &&& forall|i: int| 0 <= i < self.readers@.len() ==> #[trigger] self.readers@[i].0 < self.gen
        &&& self.logs@.contains_key(self.gen)
        &&& self.logs@[self.gen] == self.active.data()
        &&& forall|i: int|
            0 <= i < self.readers@.len() ==> self.logs@.contains_key(#[trigger] self.readers@[i].0)
                && self.logs@[self.readers@[i].0] == self.readers@[i].1.data()
        &&& forall|g: u64|
            #[trigger] self.logs@.contains_key(g) ==> g == self.gen || exists|i: int|
                0 <= i < self.readers@.len() && #[trigger] self.readers@[i].0 == g
        &&& self.writer.pos() == self.active.data().len()
        &&& self.writer.buffered() == Seq::<u8>::empty()
        &&& is_complete(self.active.data())
        &&& replay_logs(Map::empty(), self.history()) == Some(self.base@)
        &&& replay_bytes(self.base@, self.active.data()) == Some(self.contents@)
        &&& index_ok(self.map@, self.contents@, self.logs@)
        &&& self.base_sections@ == replay_index_logs(Map::empty(), self.history_entries())
        &&& index_map(self.map@) == replay_index(self.base_sections@, self.active.data(), self.gen, 0)
        &&& self.unsynced@.len() <= self.active.data().len()
        &&& self.unsynced@ == self.active.data().skip(
            self.active.data().len() - self.unsynced@.len(),
        )
    }

    /// The bytes appended to the active log since the last call, in order,
    /// for the host to write to the end of that generation's file.
    pub fn take_unsynced(&mut self) -> (r: Vec<u8>)
        requires
            old(self).wf(),
        ensures
            final(self).wf(),
            r@ == old(self).pending(),
            final(self).pending() == Seq::<u8>::empty(),
            final(self)@ == old(self)@,
            final(self).log_data() == old(self).log_data(),
            final(self).generation() == old(self).generation(),
    {
        let mut out: Vec<u8> = Vec::new();
        out.append(&mut self.unsynced);
        assert(self.active.data().skip(self.active.data().len() as int) =~= Seq::<u8>::empty());
        out
    }

    /// Opens a store on the logs found in its directory, given oldest
    /// generation first: replays them into the index and starts a new, empty
    /// generation after the newest. Fails with `Codec` where a log holds a
    /// line that is not a record.
    pub fn open(logs: Vec<(u64, Vec<u8>)>) -> (r: Result<KvStore, KvsError>)
        requires
            strictly_ascending(log_generations(logs@)),
            logs@.len() > 0 ==> logs@.last().0 < u64::MAX,
        ensures
            r matches Ok(s) ==> {
                &&& s.wf()
                &&& replay_logs(Map::empty(), log_bytes(logs@)) == Some(s@)
                &&& s.history() == log_bytes(logs@)
                &&& s.history_generations() == log_generations(logs@)
                &&& s.generation() == next_generation(log_generations(logs@))
                &&& s.active_log() == Seq::<u8>::empty()
                &&& s.pending() == Seq::<u8>::empty()
            },
            r matches Err(e) ==> replay_logs(Map::empty(), log_bytes(logs@)) is None && e
                == KvsError::Codec,
    {
        let ghost all = logs@;
        let ghost gens = log_generations(all);
        let ghost bytes = log_bytes(all);
        let mut rest = logs;
        let mut index: Vec<(String, LogSection)> = Vec::new();
        let mut readers: Vec<(u64, TrackingBufReader)> = Vec::new();
        let ghost mut logmap: Map<u64, Seq<u8>> = Map::empty();
        let ghost mut cur: Map<Seq<char>, Seq<char>> = Map::empty();
        let mut next: u64 = 1;
        assert(bytes.take(0) =~= Seq::<Seq<u8>>::empty());
        assert(log_entries(all).take(0) =~= Seq::<(u64, Seq<u8>)>::empty());
        assert(index_map(index@) =~= Map::<Seq<char>, LogSection>::empty());
        assert(rest@ =~= all.skip(0));
        while rest.len() > 0
            invariant
                all == logs@,
                all.len() == gens.len(),
                all.len() == bytes.len(),
                gens == log_generations(all),
                bytes == log_bytes(all),
                strictly_ascending(gens),
                all.len() > 0 ==> all.last().0 < u64::MAX,
                readers@.len() + rest@.len() == all.len(),
                rest@ == all.skip(readers@.len() as int),
                forall|i: int|
                    0 <= i < readers@.len() ==> #[trigger] readers@[i].0 == gens[i]
                        && readers@[i].1.data() == bytes[i],
                forall|g: u64|
                    #[trigger] logmap.contains_key(g) <==> exists|i: int|
                        0 <= i < readers@.len() && #[trigger] readers@[i].0 == g,
                forall|i: int|
                    0 <= i < readers@.len() ==> logmap[#[trigger] readers@[i].0]
                        == readers@[i].1.data(),
                replay_logs(Map::empty(), bytes.take(readers@.len() as int)) == Some(cur),
                index_ok(index@, cur, logmap),
                index_map(index@) == replay_index_logs(
                    Map::empty(),
                    log_entries(all).take(readers@.len() as int),
                ),
                readers@.len() == 0 ==> next == 1,
                readers@.len() > 0 ==> next == gens[readers@.len() - 1] + 1,
            decreases rest@.len(),
        {
            let n = readers.len();
            let (g, d) = rest.remove(0);
            assert(g == gens[n as int] && d@ == bytes[n as int]);
            proof {
                if logmap.contains_key(g) {
                    let i = choose|i: int| 0 <= i < readers@.len() && #[trigger] readers@[i].0 == g;
                    assert(gens[i] < gens[n as int]);
                }
                lemma_index_new_log(index@, cur, logmap, g, d@);
                logmap = logmap.insert(g, d@);
                lemma_replay_logs_push(Map::empty(), bytes.take(n as int), d@);
                assert(bytes.take(n as int).push(d@) =~= bytes.take(n + 1));
            }
            let ghost entries = log_entries(all);
            assert(entries.take(n + 1).drop_last() =~= entries.take(n as int));
            assert(entries.take(n + 1).last() == (g, d@));
            let mut reader = TrackingBufReader::new(d);
            match load(&mut index, &mut reader, g, Ghost(logmap), Ghost(cur)) {
                Ok(_) => {},
                Err(e) => {
                    proof {
                        assert(replay_bytes(cur, d@) is None);
                        assert(replay_logs(Map::empty(), bytes.take(n + 1)) is None);
                        lemma_replay_logs_fail(
                            Map::empty(),
                            bytes.take(n + 1),
                            bytes.skip(n + 1),
                        );
                        assert(bytes.take(n + 1) + bytes.skip(n + 1) =~= bytes);
                        assert(replay_logs(Map::empty(), log_bytes(all)) is None);
                        assert(e == KvsError::Codec);
                    }
                    return Err(e);
                },
            }
            proof {
                cur = replay_bytes(cur, reader.data())->0;
            }
            let ghost prev = readers@;
            let ghost prev_map = logmap.remove(g);
            readers.push((g, reader));
            proof {
                assert(rest@ =~= all.skip(readers@.len() as int));
                assert forall|x: u64|
                    #[trigger] logmap.contains_key(x) <==> exists|i: int|
                        0 <= i < readers@.len() && #[trigger] readers@[i].0 == x by {
                    if x == g {
                        assert(readers@[n as int].0 == x);
                    } else if logmap.contains_key(x) {
                        let i = choose|i: int| 0 <= i < prev.len() && #[trigger] prev[i].0 == x;
                        assert(readers@[i] == prev[i]);
                    } else if exists|i: int| 0 <= i < readers@.len() && #[trigger] readers@[i].0 == x {
                        let i = choose|i: int| 0 <= i < readers@.len() && #[trigger] readers@[i].0 == x;
                        assert(readers@[i] == prev[i]);
                    }
                }
                assert forall|i: int| 0 <= i < readers@.len() implies logmap[#[trigger] readers@[i].0]
                    == readers@[i].1.data() by {
                    if i < n {
                        assert(readers@[i] == prev[i]);
                        assert(gens[i] < gens[n as int]);
                    }
                }
            }
            proof {
                if n + 1 < all.len() {
                    assert(gens[n as int] < gens[all.len() - 1]);
                }
                assert(gens[all.len() - 1] == all.last().0);
            }
            next = g + 1;
        }
        proof {
            assert(bytes.take(readers@.len() as int) =~= bytes);
            assert(log_entries(all).take(readers@.len() as int) =~= log_entries(all));
            assert forall|i: int| 0 <= i < readers@.len() implies readers@[i].1.data() == bytes[i] by {
                assert(readers@[i].0 == gens[i]);
            }
            assert(readers@.map_values(|r: (u64, TrackingBufReader)| r.1.data()) =~= bytes);
            assert(readers@.map_values(|r: (u64, TrackingBufReader)| r.0) =~= gens);
            if logmap.contains_key(next) {
                let i = choose|i: int| 0 <= i < readers@.len() && #[trigger] readers@[i].0 == next;
                assert(gens[i] <= gens[readers@.len() - 1]);
            }
            lemma_index_new_log(index@, cur, logmap, next, Seq::<u8>::empty());
        }
        let ghost index_snapshot = index@;
        proof {
            assert(readers@.map_values(|r: (u64, TrackingBufReader)| (r.0, r.1.data())) =~= log_entries(all));
        }
        let active = TrackingBufReader::new(Vec::new());
        let store = KvStore {
            gen: next,
            map: index,
            writer: TrackingBufWriter::new(0),
            readers,
            active,
            unsynced: Vec::new(),
            logs: Ghost(logmap.insert(next, Seq::<u8>::empty())),
            base: Ghost(cur),
            base_sections: Ghost(index_map(index_snapshot)),
            contents: Ghost(cur),
        };
        assert(store.unsynced@ =~= store.active.data().skip(0));
        Ok(store)
    }

    /// Encodes `cmd`, appends it to the active log, and reports the offsets
    /// of its first byte and of the byte after it.
    fn append_record(&mut self, cmd: &Command) -> (r: (u64, u64))
        requires
            old(self).wf(),
            old(self).active_log().len() + encode_model(cmd@).len() <= u64::MAX,
        ensures
            r.0 == old(self).active_log().len(),
            r.1 == final(self).active_log().len(),
            final(self).active.data() == old(self).active.data() + encode_model(cmd@),
            final(self).logs@ == old(self).logs@.insert(old(self).gen, final(self).active.data()),
            final(self).unsynced@ == old(self).unsynced@ + encode_model(cmd@),
            final(self).writer.pos() == final(self).active.data().len(),
            final(self).writer.buffered() == Seq::<u8>::empty(),
            final(self).gen == old(self).gen,
            final(self).map == old(self).map,
            final(self).readers == old(self).readers,
            final(self).base == old(self).base,
            final(self).base_sections == old(self).base_sections,
            final(self).contents == old(self).contents,
    {
        let bytes = encode_command(cmd);
        let start = self.writer.position();
        self.writer.write(bytes.as_slice());
        let mut flushed = self.writer.flush();
        self.active.append(flushed.as_slice());
        self.unsynced.append(&mut flushed);
        let end = self.writer.position();
        proof {
            self.logs@ = self.logs@.insert(self.gen, self.active.data());
        }
        (start, end)
    }

    /// Sets `key` to `value`, replacing any value it had.
    pub fn set(&mut self, key: String, value: String) -> (r: Result<(), KvsError>)
        requires
            old(self).wf(),
            old(self).active_log().len() + encode_model(CommandModel::Put(key@, value@)).len()
                <= u64::MAX,
        ensures
            final(self).wf(),
            r is Ok,
            final(self)@ == old(self)@.insert(key@, value@),
            final(self).generation() == old(self).generation(),
            final(self).history() == old(self).history(),
            final(self).history_generations() == old(self).history_generations(),
            final(self).active_log() == old(self).active_log() + encode_model(
                CommandModel::Put(key@, value@),
            ),
            final(self).sections() == old(self).sections().insert(
                key@,
                (LogSection {
                    gen: old(self).generation(),
                    start: old(self).active_log().len() as u64,
                    length: encode_model(CommandModel::Put(key@, value@)).len() as u64,
                }),
            ),
            final(self).pending() == old(self).pending() + encode_model(
                CommandModel::Put(key@, value@),
            ),
    {
        let cmd = Command::Put { key: key.clone(), value: value.clone() };
        proof {
            lemma_decode_encode(cmd@);
        }
        let ghost old_data = self.active.data();
        let ghost old_logs = self.logs@;
        let ghost line = encode_model(cmd@);
        let (start, end) = self.append_record(&cmd);
        let sec = LogSection::new(self.gen, start, end);
        proof {
            lemma_index_grow(self.map@, self.contents@, old_logs, self.gen, line);
            assert(self.logs@[self.gen].subrange(start as int, end as int) =~= line);
            assert(points_to(self.logs@, sec, CommandModel::Put(key@, value@)));
            lemma_replay_append_line(self.base@, old_data, line, cmd@);
            assert(old_data.skip(0) =~= old_data);
            lemma_replay_index_append(self.base_sections@, self.base@, old_data, line, cmd@, self.gen, 0);
            assert(sec == (LogSection { gen: self.gen, start: old_data.len() as u64, length: line.len() as u64 }));
            assert(self.active.data() == old_data + line);
            assert(replay_index(self.base_sections@, self.active.data(), self.gen, 0)
                == index_map(self.map@).insert(key@, sec));
        }
        match find_key(&self.map, &key) {
            Some(p) => {
                proof {
                    lemma_index_update(self.map@, self.contents@, self.logs@, p as int, key, value@, sec);
                    lemma_index_map_update(self.map@, p as int, key, sec);
                }
                self.map.set(p, (key, sec));
            },
            None => {
                proof {
                    lemma_index_push(self.map@, self.contents@, self.logs@, key, value@, sec);
                    lemma_index_map_push(self.map@, key, sec);
                }
                self.map.push((key, sec));
            },
        }
        proof {
            self.contents@ = self.contents@.insert(key@, value@);
            assert(self.unsynced@ =~= self.active.data().skip(
                self.active.data().len() - self.unsynced@.len(),
            ));
            assert(self.readers@.map_values(|r: (u64, TrackingBufReader)| r.0)
                == old(self).readers@.map_values(|r: (u64, TrackingBufReader)| r.0));
            assert(self.readers@.map_values(|r: (u64, TrackingBufReader)| (r.0, r.1.data()))
                == old(self).readers@.map_values(|r: (u64, TrackingBufReader)| (r.0, r.1.data())));
        }
        Ok(())
    }

    /// Removes `key`. Fails with `KeyNotFound`, changing nothing, where the
    /// store does not hold it. The `Remove` record is appended before the
    /// index drops the key; replay rebuilds the same index either way.
    pub fn remove(&mut self, key: String) -> (r: Result<(), KvsError>)
        requires
            old(self).wf(),
            old(self)@.contains_key(key@) ==> old(self).active_log().len() + encode_model(
                CommandModel::Remove(key@),
            ).len() <= u64::MAX,
        ensures
            final(self).wf(),
            old(self)@.contains_key(key@) ==> {
                &&& r is Ok
                &&& final(self)@ == old(self)@.remove(key@)
                &&& final(self).sections() == old(self).sections().remove(key@)
                &&& final(self).generation() == old(self).generation()
                &&& final(self).history() == old(self).history()
                &&& final(self).history_generations() == old(self).history_generations()
                &&& final(self).active_log() == old(self).active_log() + encode_model(
                    CommandModel::Remove(key@),
                )
                &&& final(self).pending() == old(self).pending() + encode_model(
                    CommandModel::Remove(key@),
                )
            },
            !old(self)@.contains_key(key@) ==> r == Err::<(), KvsError>(KvsError::KeyNotFound)
                && *final(self) == *old(self),
    {
        let p = match find_key(&self.map, &key) {
            Some(p) => p,
            None => {
                return Err(KvsError::KeyNotFound);
            },
        };
        let cmd = Command::Remove { key };
        proof {
            lemma_decode_encode(cmd@);
        }
        let ghost old_data = self.active.data();
        let ghost old_logs = self.logs@;
        let ghost line = encode_model(cmd@);
        let _ = self.append_record(&cmd);
        proof {
            lemma_index_grow(self.map@, self.contents@, old_logs, self.gen, line);
            lemma_index_remove(self.map@, self.contents@, self.logs@, p as int);
            lemma_index_map_remove(self.map@, p as int);
            lemma_replay_append_line(self.base@, old_data, line, cmd@);
            assert(old_data.skip(0) =~= old_data);
            lemma_replay_index_append(self.base_sections@, self.base@, old_data, line, cmd@, self.gen, 0);
            assert(self.active.data() == old_data + line);
            assert(replay_index(self.base_sections@, self.active.data(), self.gen, 0)
                == index_map(self.map@).remove(key@));
        }
        self.map.remove(p);
        proof {
            self.contents@ = apply(self.contents@, cmd@);
            assert(self.unsynced@ =~= self.active.data().skip(
                self.active.data().len() - self.unsynced@.len(),
            ));
            assert(self.readers@.map_values(|r: (u64, TrackingBufReader)| r.0)
                == old(self).readers@.map_values(|r: (u64, TrackingBufReader)| r.0));
            assert(self.readers@.map_values(|r: (u64, TrackingBufReader)| (r.0, r.1.data()))
                == old(self).readers@.map_values(|r: (u64, TrackingBufReader)| (r.0, r.1.data())));
        }
        Ok(())
    }

    /// The value of `key`, or `None` where the store does not hold it.
    pub fn get(&mut self, key: String) -> (r: Result<Option<String>, KvsError>)
        requires
            old(self).wf(),
        ensures
            *final(self) == *old(self),
            match r {
                Ok(Some(v)) => old(self)@.contains_key(key@) && v@ == old(self)@[key@],
                Ok(None) => !old(self)@.contains_key(key@),
                Err(_) => false,
            },
    {
        let p = match find_key(&self.map, &key) {
            Some(p) => p,
            None => {
                return Ok(None);
            },
        };
        let sec = self.map[p].1;
        let ghost want = CommandModel::Put(key@, self.contents@[key@]);
        assert(points_to(self.logs@, sec, want));
        let bytes = if sec.gen == self.gen {
            self.active.read_at(sec.start, sec.length)
        } else {
            let mut i: usize = 0;
            let mut found: Option<usize> = None;
            while i < self.readers.len()
                invariant
                    i <= self.readers@.len(),
                    found matches Some(x) ==> x < self.readers@.len() && self.readers@[x as int].0
                        == sec.gen,
                    found is None ==> forall|x: int| 0 <= x < i ==> self.readers@[x].0 != sec.gen,
                decreases self.readers@.len() - i,
            {
                if found.is_none() && self.readers[i].0 == sec.gen {
                    found = Some(i);
                }
                i = i + 1;
            }
            match found {
                Some(x) => self.readers[x].1.read_at(sec.start, sec.length),
                None => {
                    return Err(KvsError::ReaderNotFound);
                },
            }
        };
        match decode_command(bytes.as_slice()) {
            Ok(Command::Put { key: _, value }) => Ok(Some(value)),
            Ok(Command::Remove { .. }) => Err(KvsError::Codec),
            Err(e) => Err(e),
        }
    }

    /// The generation that mutations are appended to.
    pub fn active_generation(&self) -> (r: u64)
        ensures
            r == self.generation(),
    {
        self.gen
    }
}

/// The number of bytes in all the logs.
pub open spec fn total_len(logs: Seq<Seq<u8>>) -> nat
    decreases logs.len(),
{
    if logs.len() == 0 {
        0
    } else {
        total_len(logs.drop_last()) + logs.last().len()
    }
}

/// Persistence: the logs of a store replay to exactly its contents, so a
/// store opened on those logs holds what this one holds.
pub proof fn lemma_persistence(s: &KvStore, logs: Seq<(u64, Vec<u8>)>)
    requires
        s.wf(),
        log_bytes(logs) == s.log_data(),
    ensures
        replay_logs(Map::empty(), log_bytes(logs)) == Some(s@),
{
    lemma_replay_logs_push(Map::empty(), s.history(), s.active_log());
}

/// The logs of a store, as the host hands them to `open` after reading them
/// back, are in the order that `open` asks for.
pub proof fn lemma_logs_reopenable(s: &KvStore, logs: Seq<(u64, Vec<u8>)>)
    requires
        s.wf(),
        log_generations(logs) == s.history_generations().push(s.generation()),
        s.generation() < u64::MAX,
    ensures
        strictly_ascending(log_generations(logs)),
        logs.len() > 0 ==> logs.last().0 < u64::MAX,
{
    let gens = log_generations(logs);
    let h = s.history_generations();
    assert forall|i: int, j: int| 0 <= i < j < gens.len() implies gens[i] < gens[j] by {
        if j == h.len() {
            assert(s.readers@[i].0 < s.gen);
        }
    }
    assert(gens.len() == logs.len());
    if logs.len() > 0 {
        assert(gens[gens.len() - 1] == logs.last().0);
    }
}

/// Generation monotonicity: a store opened on logs writes to a generation
/// newer than any of theirs.
pub proof fn lemma_generation_increases(gens: Seq<u64>)
    requires
        strictly_ascending(gens),
    ensures
        forall|i: int| 0 <= i < gens.len() ==> gens[i] < next_generation(gens),
{
    assert forall|i: int| 0 <= i < gens.len() implies gens[i] < next_generation(gens) by {
        if i < gens.len() - 1 {
            assert(gens[i] < gens[gens.len() - 1]);
        }
    }
}

/// The log grows with every mutation: appending a record to the active log
/// makes the logs strictly longer in all.
pub proof fn lemma_monotonic_log(history: Seq<Seq<u8>>, active: Seq<u8>, c: CommandModel)
    ensures
        total_len(history.push(active + encode_model(c))) > total_len(history.push(active)),
{
    lemma_decode_encode(c);
    assert(history.push(active + encode_model(c)).drop_last() =~= history);
    assert(history.push(active).drop_last() =~= history);
}

/// Each live key of a store points at the last `Set` record of that key in
/// its logs, replayed oldest generation first.
pub proof fn lemma_sections_are_last_sets(s: &KvStore)
    requires
        s.wf(),
    ensures
        s.sections() == replay_index_logs(Map::empty(), s.log_entries()),
{
    assert(s.log_entries().drop_last() =~= s.history_entries());
}

} // verus!
