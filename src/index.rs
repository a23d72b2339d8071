//! The in-memory index: each live key with the place of its last `Set` record.
use vstd::prelude::*;
use crate::codec::decode_record;
use crate::command::CommandModel;

verus! {

/// Locates one encoded record inside one generation's log.
#[derive(Clone, Copy)]
pub struct LogSection {
    pub gen: u64,
    pub start: u64,
    pub length: u64,
}

impl LogSection {
    /// The section of generation `gen` that spans the bytes `[start, end)`.
    pub fn new(gen: u64, start: u64, end: u64) -> (r: LogSection)
        requires
            start <= end,
        ensures
            r.gen == gen,
            r.start == start,
            r.length == end - start,
    {
        LogSection { gen, start, length: end - start }
    }
}

/// The section `(gen, start, end)` spans `[start, end)` of generation `gen`;
/// an end before the start gives an empty section.
impl From<(u64, u64, u64)> for LogSection {
    fn from(t: (u64, u64, u64)) -> (r: LogSection) {
        let (gen, start, end) = t;
        let length = if end >= start {
            end - start
        } else {
            0
        };
        LogSection { gen, start, length }
    }
}

impl vstd::std_specs::convert::FromSpecImpl<(u64, u64, u64)> for LogSection {
    open spec fn obeys_from_spec() -> bool {
        true
    }

    open spec fn from_spec(t: (u64, u64, u64)) -> LogSection {
        LogSection {
            gen: t.0,
            start: t.1,
            length: if t.2 >= t.1 {
                (t.2 - t.1) as u64
            } else {
                0
            },
        }
    }
}

/// The record at `sec`, in the logs by generation, decodes as `c`.
pub open spec fn points_to(logs: Map<u64, Seq<u8>>, sec: LogSection, c: CommandModel) -> bool {
    &&& logs.contains_key(sec.gen)
    &&& sec.start + sec.length <= logs[sec.gen].len()
    &&& decode_record(logs[sec.gen].subrange(sec.start as int, sec.start + sec.length)) == Some(c)
}

pub open spec fn keys_unique(index: Seq<(String, LogSection)>) -> bool {
    forall|i: int, j: int| 0 <= i < j < index.len() ==> index[i].0@ != index[j].0@
}

pub open spec fn has_key(index: Seq<(String, LogSection)>, k: Seq<char>) -> bool {
    exists|i: int| 0 <= i < index.len() && #[trigger] index[i].0@ == k
}

/// The index holds exactly the keys of `m`, once each, and each entry points
/// at a record that sets its key to its value in `m`.
pub open spec fn index_ok(
    index: Seq<(String, LogSection)>,
    m: Map<Seq<char>, Seq<char>>,
    logs: Map<u64, Seq<u8>>,
) -> bool {
    &&& keys_unique(index)
    &&& forall|k: Seq<char>| #[trigger] m.contains_key(k) <==> has_key(index, k)
    &&& forall|i: int|
        0 <= i < index.len() ==> points_to(
            logs,
            #[trigger] index[i].1,
            CommandModel::Put(index[i].0@, m[index[i].0@]),
        )
}

/// The index read as a map from each key to its section.
pub open spec fn index_map(index: Seq<(String, LogSection)>) -> Map<Seq<char>, LogSection> {
    Map::new(
        |k: Seq<char>| has_key(index, k),
        |k: Seq<char>| index[choose|i: int| 0 <= i < index.len() && #[trigger] index[i].0@ == k].1,
    )
}

/// With keys held once each, the map gives each entry's own section.
pub proof fn lemma_index_map_at(index: Seq<(String, LogSection)>, i: int)
    requires
        keys_unique(index),
        0 <= i < index.len(),
    ensures
        index_map(index).contains_key(index[i].0@),
        index_map(index)[index[i].0@] == index[i].1,
{
    let k = index[i].0@;
    assert(has_key(index, k));
    let j = choose|j: int| 0 <= j < index.len() && #[trigger] index[j].0@ == k;
    if j != i {
        if j < i {
            assert(index[j].0@ != index[i].0@);
        } else {
            assert(index[i].0@ != index[j].0@);
        }
    }
}

/// Replacing the section of a key the index holds.
pub proof fn lemma_index_map_update(
    index: Seq<(String, LogSection)>,
    p: int,
    key: String,
    sec: LogSection,
)
    requires
        keys_unique(index),
        keys_unique(index.update(p, (key, sec))),
        0 <= p < index.len(),
        index[p].0@ == key@,
    ensures
        index_map(index.update(p, (key, sec))) == index_map(index).insert(key@, sec),
{
    let index2 = index.update(p, (key, sec));
    let m = index_map(index).insert(key@, sec);
    assert forall|k: Seq<char>| #[trigger] index_map(index2).contains_key(k) == m.contains_key(k) by {
        if has_key(index2, k) && k != key@ {
            let i = choose|i: int| 0 <= i < index2.len() && #[trigger] index2[i].0@ == k;
            assert(index[i].0@ == k);
        }
        if has_key(index, k) && k != key@ {
            let i = choose|i: int| 0 <= i < index.len() && #[trigger] index[i].0@ == k;
            assert(index2[i].0@ == k);
        }
        if k == key@ {
            assert(index2[p].0@ == k);
        }
    }
    assert forall|k: Seq<char>| #[trigger] index_map(index2).contains_key(k) implies index_map(
        index2,
    )[k] == m[k] by {
        let i = choose|i: int| 0 <= i < index2.len() && #[trigger] index2[i].0@ == k;
        lemma_index_map_at(index2, i);
        if i != p {
            lemma_index_map_at(index, i);
        }
    }
    assert(index_map(index2) =~= m);
}

/// Adding a key the index does not hold.
pub proof fn lemma_index_map_push(index: Seq<(String, LogSection)>, key: String, sec: LogSection)
    requires
        keys_unique(index),
        keys_unique(index.push((key, sec))),
        !has_key(index, key@),
    ensures
        index_map(index.push((key, sec))) == index_map(index).insert(key@, sec),
{
    let index2 = index.push((key, sec));
    let n = index.len() as int;
    let m = index_map(index).insert(key@, sec);
    assert forall|k: Seq<char>| #[trigger] index_map(index2).contains_key(k) == m.contains_key(k) by {
        if has_key(index2, k) && k != key@ {
            let i = choose|i: int| 0 <= i < index2.len() && #[trigger] index2[i].0@ == k;
            assert(index[i].0@ == k);
        }
        if has_key(index, k) {
            let i = choose|i: int| 0 <= i < index.len() && #[trigger] index[i].0@ == k;
            assert(index2[i].0@ == k);
        }
        if k == key@ {
            assert(index2[n].0@ == k);
        }
    }
    assert forall|k: Seq<char>| #[trigger] index_map(index2).contains_key(k) implies index_map(
        index2,
    )[k] == m[k] by {
        let i = choose|i: int| 0 <= i < index2.len() && #[trigger] index2[i].0@ == k;
        lemma_index_map_at(index2, i);
        if i != n {
            lemma_index_map_at(index, i);
        }
    }
    assert(index_map(index2) =~= m);
}

/// Dropping the entry at `p`.
pub proof fn lemma_index_map_remove(index: Seq<(String, LogSection)>, p: int)
    requires
        keys_unique(index),
        keys_unique(index.remove(p)),
        0 <= p < index.len(),
    ensures
        index_map(index.remove(p)) == index_map(index).remove(index[p].0@),
{
    let index2 = index.remove(p);
    let k0 = index[p].0@;
    let m = index_map(index).remove(k0);
    assert forall|k: Seq<char>| #[trigger] index_map(index2).contains_key(k) == m.contains_key(k) by {
        if has_key(index2, k) {
            let i = choose|i: int| 0 <= i < index2.len() && #[trigger] index2[i].0@ == k;
            let oi = if i < p { i } else { i + 1 };
            assert(index2[i] == index[oi]);
            assert(oi != p);
            if k == k0 {
                if oi < p {
                    assert(index[oi].0@ != index[p].0@);
                } else {
                    assert(index[p].0@ != index[oi].0@);
                }
            }
        }
        if has_key(index, k) && k != k0 {
            let i = choose|i: int| 0 <= i < index.len() && #[trigger] index[i].0@ == k;
            if i < p {
                assert(index2[i].0@ == k);
            } else {
                assert(index2[i - 1].0@ == k);
            }
        }
    }
    assert forall|k: Seq<char>| #[trigger] index_map(index2).contains_key(k) implies index_map(
        index2,
    )[k] == m[k] by {
        let i = choose|i: int| 0 <= i < index2.len() && #[trigger] index2[i].0@ == k;
        let oi = if i < p { i } else { i + 1 };
        assert(index2[i] == index[oi]);
        lemma_index_map_at(index2, i);
        lemma_index_map_at(index, oi);
    }
    assert(index_map(index2) =~= m);
}

/// The position of `key` in the index, if it is there.
pub fn find_key(index: &Vec<(String, LogSection)>, key: &String) -> (r: Option<usize>)
    ensures
        match r {
            Some(p) => p < index@.len() && index@[p as int].0@ == key@,
            None => !has_key(index@, key@),
        },
{
    let mut i: usize = 0;
    while i < index.len()
        invariant
            i <= index@.len(),
            forall|x: int| 0 <= x < i ==> index@[x].0@ != key@,
        decreases index@.len() - i,
    {
        if index[i].0.eq(key) {
            return Some(i);
        }
        i = i + 1;
    }
    None
}

/// Growing one log keeps every pointer into it valid.
pub proof fn lemma_index_grow(
    index: Seq<(String, LogSection)>,
    m: Map<Seq<char>, Seq<char>>,
    logs: Map<u64, Seq<u8>>,
    g: u64,
    extra: Seq<u8>,
)
    requires
        index_ok(index, m, logs),
        logs.contains_key(g),
    ensures
        index_ok(index, m, logs.insert(g, logs[g] + extra)),
{
    let logs2 = logs.insert(g, logs[g] + extra);
    assert forall|i: int| 0 <= i < index.len() implies points_to(
        logs2,
        #[trigger] index[i].1,
        CommandModel::Put(index[i].0@, m[index[i].0@]),
    ) by {
        let sec = index[i].1;
        assert(points_to(logs, sec, CommandModel::Put(index[i].0@, m[index[i].0@])));
        if sec.gen == g {
            assert(logs2[g].subrange(sec.start as int, sec.start + sec.length) =~= logs[g].subrange(
                sec.start as int,
                sec.start + sec.length,
            ));
        }
    }
}

/// A log of a new generation leaves every pointer valid.
pub proof fn lemma_index_new_log(
    index: Seq<(String, LogSection)>,
    m: Map<Seq<char>, Seq<char>>,
    logs: Map<u64, Seq<u8>>,
    g: u64,
    d: Seq<u8>,
)
    requires
        index_ok(index, m, logs),
        !logs.contains_key(g),
    ensures
        index_ok(index, m, logs.insert(g, d)),
{
    assert forall|i: int| 0 <= i < index.len() implies points_to(
        logs.insert(g, d),
        #[trigger] index[i].1,
        CommandModel::Put(index[i].0@, m[index[i].0@]),
    ) by {
        assert(points_to(logs, index[i].1, CommandModel::Put(index[i].0@, m[index[i].0@])));
    }
}

/// Pointing an existing key at a new record of its new value.
pub proof fn lemma_index_update(
    index: Seq<(String, LogSection)>,
    m: Map<Seq<char>, Seq<char>>,
    logs: Map<u64, Seq<u8>>,
    p: int,
    key: String,
    v: Seq<char>,
    sec: LogSection,
)
    requires
        index_ok(index, m, logs),
        0 <= p < index.len(),
        index[p].0@ == key@,
        points_to(logs, sec, CommandModel::Put(key@, v)),
    ensures
        index_ok(index.update(p, (key, sec)), m.insert(key@, v), logs),
{
    let index2 = index.update(p, (key, sec));
    let m2 = m.insert(key@, v);
    assert forall|k: Seq<char>| #[trigger] m2.contains_key(k) <==> has_key(index2, k) by {
        if m2.contains_key(k) && k != key@ {
            assert(has_key(index, k));
            let i = choose|i: int| 0 <= i < index.len() && #[trigger] index[i].0@ == k;
            assert(index2[i].0@ == k);
        }
        if k == key@ {
            assert(index2[p].0@ == k);
        }
        if has_key(index2, k) && k != key@ {
            let i = choose|i: int| 0 <= i < index2.len() && #[trigger] index2[i].0@ == k;
            assert(index[i].0@ == k);
        }
    }
    assert forall|i: int| 0 <= i < index2.len() implies points_to(
        logs,
        #[trigger] index2[i].1,
        CommandModel::Put(index2[i].0@, m2[index2[i].0@]),
    ) by {
        if i != p {
            assert(points_to(logs, index[i].1, CommandModel::Put(index[i].0@, m[index[i].0@])));
        }
    }
}

/// Adding a key that the index does not hold, with a record of its value.
pub proof fn lemma_index_push(
    index: Seq<(String, LogSection)>,
    m: Map<Seq<char>, Seq<char>>,
    logs: Map<u64, Seq<u8>>,
    key: String,
    v: Seq<char>,
    sec: LogSection,
)
    requires
        index_ok(index, m, logs),
        !has_key(index, key@),
        points_to(logs, sec, CommandModel::Put(key@, v)),
    ensures
        index_ok(index.push((key, sec)), m.insert(key@, v), logs),
{
    let index2 = index.push((key, sec));
    let m2 = m.insert(key@, v);
    let n = index.len() as int;
    assert forall|k: Seq<char>| #[trigger] m2.contains_key(k) <==> has_key(index2, k) by {
        if m2.contains_key(k) && k != key@ {
            assert(has_key(index, k));
            let i = choose|i: int| 0 <= i < index.len() && #[trigger] index[i].0@ == k;
            assert(index2[i].0@ == k);
        }
        if k == key@ {
            assert(index2[n].0@ == k);
        }
        if has_key(index2, k) && k != key@ {
            let i = choose|i: int| 0 <= i < index2.len() && #[trigger] index2[i].0@ == k;
            assert(index[i].0@ == k);
        }
    }
    assert forall|i: int, j: int| 0 <= i < j < index2.len() implies index2[i].0@ != index2[j].0@ by {
        if j == n {
            assert(index[i].0@ != key@);
        }
    }
    assert forall|i: int| 0 <= i < index2.len() implies points_to(
        logs,
        #[trigger] index2[i].1,
        CommandModel::Put(index2[i].0@, m2[index2[i].0@]),
    ) by {
        if i != n {
            assert(points_to(logs, index[i].1, CommandModel::Put(index[i].0@, m[index[i].0@])));
            assert(index[i].0@ != key@);
        }
    }
}

/// Dropping a key's entry.
pub proof fn lemma_index_remove(
    index: Seq<(String, LogSection)>,
    m: Map<Seq<char>, Seq<char>>,
    logs: Map<u64, Seq<u8>>,
    p: int,
)
    requires
        index_ok(index, m, logs),
        0 <= p < index.len(),
    ensures
        index_ok(index.remove(p), m.remove(index[p].0@), logs),
{
    let k0 = index[p].0@;
    let index2 = index.remove(p);
    let m2 = m.remove(k0);
    assert forall|k: Seq<char>| #[trigger] m2.contains_key(k) <==> has_key(index2, k) by {
        if m2.contains_key(k) {
            assert(has_key(index, k));
            let i = choose|i: int| 0 <= i < index.len() && #[trigger] index[i].0@ == k;
            if i < p {
                assert(index2[i].0@ == k);
            } else {
                assert(i != p);
                assert(index2[i - 1].0@ == k);
            }
        }
        if has_key(index2, k) {
            let i = choose|i: int| 0 <= i < index2.len() && #[trigger] index2[i].0@ == k;
            if i < p {
                assert(index[i].0@ == k);
            } else {
                assert(index[i + 1].0@ == k);
            }
        }
    }
    assert forall|i: int, j: int| 0 <= i < j < index2.len() implies index2[i].0@ != index2[j].0@ by {
        if j < p {
        } else if i < p {
            assert(index2[j] == index[j + 1]);
        } else {
            assert(index2[i] == index[i + 1]);
            assert(index2[j] == index[j + 1]);
        }
    }
    assert forall|i: int| 0 <= i < index2.len() implies points_to(
        logs,
        #[trigger] index2[i].1,
        CommandModel::Put(index2[i].0@, m2[index2[i].0@]),
    ) by {
        let oi = if i < p { i } else { i + 1 };
        assert(index2[i] == index[oi]);
        assert(points_to(logs, index[oi].1, CommandModel::Put(index[oi].0@, m[index[oi].0@])));
        assert(index[oi].0@ != k0);
    }
}

} // verus!
