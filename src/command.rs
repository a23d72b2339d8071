//! The commands that the log records and what they do to the store's contents.
use vstd::prelude::*;

verus! {

/// What a command says, over the text of its key and value. `Put` is
/// written to the log under the tag `Set`.
pub enum CommandModel {
    Put(Seq<char>, Seq<char>),
    Remove(Seq<char>),
}

/// A mutation of the store, as it is written to the log.
pub enum Command {
    Put { key: String, value: String },
    Remove { key: String },
}

impl View for Command {
    type V = CommandModel;

    open spec fn view(&self) -> CommandModel {
        match self {
            Command::Put { key, value } => CommandModel::Put(key@, value@),
            Command::Remove { key } => CommandModel::Remove(key@),
        }
    }
}

/// The contents of the store after one more command.
pub open spec fn apply(m: Map<Seq<char>, Seq<char>>, c: CommandModel) -> Map<Seq<char>, Seq<char>> {
    match c {
        CommandModel::Put(k, v) => m.insert(k, v),
        CommandModel::Remove(k) => m.remove(k),
    }
}

/// The contents of the store after a run of commands, in order.
pub open spec fn apply_all(m: Map<Seq<char>, Seq<char>>, cs: Seq<CommandModel>) -> Map<
    Seq<char>,
    Seq<char>,
>
    decreases cs.len(),
{
    if cs.len() == 0 {
        m
    } else {
        apply_all(apply(m, cs[0]), cs.drop_first())
    }
}

/// The key that a command is about.
pub open spec fn key_of(c: CommandModel) -> Seq<char> {
    match c {
        CommandModel::Put(k, _) => k,
        CommandModel::Remove(k) => k,
    }
}

/// A command on one key leaves every other key as it was: held or not, and
/// with the same value.
pub proof fn lemma_independent_keys(m: Map<Seq<char>, Seq<char>>, c: CommandModel, k: Seq<char>)
    requires
        key_of(c) != k,
    ensures
        apply(m, c).contains_key(k) == m.contains_key(k),
        m.contains_key(k) ==> apply(m, c)[k] == m[k],
{
}

/// Commands that are not about `k` leave it as it was.
pub proof fn lemma_other_keys_all(m: Map<Seq<char>, Seq<char>>, cs: Seq<CommandModel>, k: Seq<char>)
    requires
        forall|i: int| 0 <= i < cs.len() ==> key_of(#[trigger] cs[i]) != k,
    ensures
        apply_all(m, cs).contains_key(k) == m.contains_key(k),
        m.contains_key(k) ==> apply_all(m, cs)[k] == m[k],
    decreases cs.len(),
{
    if cs.len() > 0 {
        assert(key_of(cs[0]) != k);
        lemma_independent_keys(m, cs[0], k);
        assert forall|i: int| 0 <= i < cs.drop_first().len() implies key_of(
            #[trigger] cs.drop_first()[i],
        ) != k by {
            assert(cs.drop_first()[i] == cs[i + 1]);
        }
        lemma_other_keys_all(apply(m, cs[0]), cs.drop_first(), k);
    }
}

/// Running `a` then `b` is running `a + b`.
pub proof fn lemma_apply_all_concat(
    m: Map<Seq<char>, Seq<char>>,
    a: Seq<CommandModel>,
    b: Seq<CommandModel>,
)
    ensures
        apply_all(m, a + b) == apply_all(apply_all(m, a), b),
    decreases a.len(),
{
    if a.len() == 0 {
        assert(a + b =~= b);
    } else {
        assert((a + b).drop_first() =~= a.drop_first() + b);
        assert((a + b)[0] == a[0]);
        lemma_apply_all_concat(apply(m, a[0]), a.drop_first(), b);
    }
}

/// The last writer wins: after a run of commands in which `cs[j]` sets `k`
/// to `v` and no later command is about `k`, the store holds `v` for `k`.
pub proof fn lemma_last_writer_wins(
    m: Map<Seq<char>, Seq<char>>,
    cs: Seq<CommandModel>,
    j: int,
    k: Seq<char>,
    v: Seq<char>,
)
    requires
        0 <= j < cs.len(),
        cs[j] == CommandModel::Put(k, v),
        forall|i: int| j < i < cs.len() ==> key_of(#[trigger] cs[i]) != k,
    ensures
        apply_all(m, cs).contains_key(k),
        apply_all(m, cs)[k] == v,
{
    let a = cs.take(j + 1);
    let b = cs.skip(j + 1);
    assert(cs =~= a + b);
    lemma_apply_all_concat(m, a, b);
    assert(a =~= cs.take(j) + seq![cs[j]]);
    lemma_apply_all_concat(m, cs.take(j), seq![cs[j]]);
    let m1 = apply_all(m, cs.take(j));
    assert(seq![cs[j]].drop_first() =~= Seq::<CommandModel>::empty());
    assert(apply_all(m1, seq![cs[j]]) == apply_all(apply(m1, cs[j]), Seq::<CommandModel>::empty()));
    assert forall|i: int| 0 <= i < b.len() implies key_of(#[trigger] b[i]) != k by {
        assert(b[i] == cs[j + 1 + i]);
    }
    lemma_other_keys_all(apply_all(m, a), b, k);
}

/// Removal erases: after setting `k` and then removing it, the store does not
/// hold `k`.
pub proof fn lemma_removal_erases(m: Map<Seq<char>, Seq<char>>, k: Seq<char>, v: Seq<char>)
    ensures
        !apply(apply(m, CommandModel::Put(k, v)), CommandModel::Remove(k)).contains_key(k),
{
}

} // verus!
