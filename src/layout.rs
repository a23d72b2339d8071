//! Log files are named `<generation>.log`, with the generation in decimal.
use vstd::prelude::*;
use vstd::utf8::encode_utf8;
use std::path::PathBuf;

verus! {

/// The decimal digits of `n`.
pub open spec fn decimal(n: nat) -> Seq<char>
    decreases n,
{
    if n < 10 {
        seq![(48 + n) as char]
    } else {
        decimal(n / 10).push((48 + n % 10) as char)
    }
}

/// The name of generation `gen`'s log file.
pub open spec fn log_name(gen: nat) -> Seq<char> {
    decimal(gen) + seq!['.', 'l', 'o', 'g']
}

pub open spec fn is_digit(b: u8) -> bool {
    48 <= b <= 57
}

/// The number that a run of decimal digits denotes.
pub open spec fn digits_value(s: Seq<u8>) -> nat
    decreases s.len(),
{
    if s.len() == 0 {
        0
    } else {
        digits_value(s.drop_last()) * 10 + (s.last() - 48) as nat
    }
}

/// `.log`
pub open spec fn log_suffix() -> Seq<u8> {
    seq![46u8, 108, 111, 103]
}

/// The generation that a file name (as UTF-8 bytes) names: one or more
/// decimal digits, no sign, then `.log`, with a value that fits in `u64`.
pub open spec fn generation_of(name: Seq<u8>) -> Option<u64> {
    let n = name.len() - 4;
    if name.len() >= 5 && name.subrange(n, name.len() as int) == log_suffix() && (forall|
        i: int,
    |
        0 <= i < n ==> is_digit(name[i])) && digits_value(name.subrange(0, n)) <= u64::MAX {
        Some(digits_value(name.subrange(0, n)) as u64)
    } else {
        None
    }
}

/// Relies on `<u64 as ToString>::to_string`: it writes the number in
/// decimal, with no sign and no padding.
#[verifier::external_body]
fn decimal_text(n: u64) -> (r: String)
    ensures
        r@ == decimal(n as nat),
{
    n.to_string()
}

/// Relies on `String::push_str`: it appends the characters of `tail`.
#[verifier::external_body]
fn push_text(s: &mut String, tail: &str)
    ensures
        final(s)@ == old(s)@ + tail@,
{
    s.push_str(tail)
}

/// The name of generation `gen`'s log file.
pub fn log_file_name(gen: u64) -> (r: String)
    ensures
        r@ == log_name(gen as nat),
{
    let mut name = decimal_text(gen);
    push_text(&mut name, ".log");
    proof {
        reveal_strlit(".log");
    }
    assert(name@ =~= log_name(gen as nat));
    name
}

#[verifier::external_type_specification]
#[verifier::external_body]
pub struct ExPathBuf(PathBuf);

/// The path of the entry `name` inside the directory `dir`.
pub uninterp spec fn joined(dir: PathBuf, name: Seq<char>) -> PathBuf;

/// Relies on `Path::join`: the path of the entry `name` inside `dir`, a
/// function of the two alone.
#[verifier::external_body]
fn join_path(dir: &PathBuf, name: &str) -> (r: PathBuf)
    ensures
        r == joined(*dir, name@),
{
    dir.join(name)
}

/// The path of generation `generation`'s log file inside the directory `path`.
pub fn log_file_path(path: &PathBuf, generation: u64) -> (r: PathBuf)
    ensures
        r == joined(*path, log_name(generation as nat)),
{
    let name = log_file_name(generation);
    join_path(path, name.as_str())
}

proof fn lemma_digits_push(s: Seq<u8>, b: u8)
    ensures
        digits_value(s.push(b)) == digits_value(s) * 10 + (b - 48) as nat,
{
    assert(s.push(b).drop_last() =~= s);
}

/// The generation that the file name `name` names, if it is a log file's.
pub fn parse_generation(name: &str) -> (r: Option<u64>)
    ensures
        r == generation_of(encode_utf8(name@)),
{
    let b = name.as_bytes();
    let len = b.len();
    if len < 5 || b[len - 4] != 46 || b[len - 3] != 108 || b[len - 2] != 111 || b[len - 1] != 103 {
        proof {
            if len >= 5 && b@.subrange(len - 4, len as int) == log_suffix() {
                assert(b@.subrange(len - 4, len as int)[0] == b@[len - 4]);
                assert(b@.subrange(len - 4, len as int)[1] == b@[len - 3]);
                assert(b@.subrange(len - 4, len as int)[2] == b@[len - 2]);
                assert(b@.subrange(len - 4, len as int)[3] == b@[len - 1]);
            }
        }
        return None;
    }
    assert(b@.subrange(len - 4, len as int) =~= log_suffix());
    let n = len - 4;
    let mut v: u64 = 0;
    let mut too_big = false;
    let mut i: usize = 0;
    while i < n
        invariant
            b@ == encode_utf8(name@),
            b@.subrange(n as int, b@.len() as int) == log_suffix(),
            n == b@.len() - 4,
            i <= n,
            forall|x: int| 0 <= x < i ==> is_digit(b@[x]),
            !too_big ==> v as nat == digits_value(b@.subrange(0, i as int)),
            too_big ==> digits_value(b@.subrange(0, i as int)) > u64::MAX,
        decreases n - i,
    {
        let d = b[i];
        if d < 48 || d > 57 {
            assert(!is_digit(b@[i as int]));
            return None;
        }
        proof {
            lemma_digits_push(b@.subrange(0, i as int), d);
            assert(b@.subrange(0, i as int).push(d) =~= b@.subrange(0, i + 1));
        }
        if !too_big {
            if v > (u64::MAX - (d - 48) as u64) / 10 {
                too_big = true;
            } else {
                v = v * 10 + (d - 48) as u64;
            }
        }
        i = i + 1;
    }
    if too_big {
        None
    } else {
        Some(v)
    }
}

pub open spec fn strictly_ascending(s: Seq<u64>) -> bool {
    forall|i: int, j: int| 0 <= i < j < s.len() ==> s[i] < s[j]
}

/// Adds `g` to an ascending list of distinct generations, keeping it so.
fn insert_generation(v: &mut Vec<u64>, g: u64)
    requires
        strictly_ascending(old(v)@),
    ensures
        strictly_ascending(final(v)@),
        forall|x: u64| final(v)@.contains(x) <==> (old(v)@.contains(x) || x == g),
{
    let mut i: usize = 0;
    while i < v.len() && v[i] < g
        invariant
            v@ == old(v)@,
            strictly_ascending(v@),
            i <= v@.len(),
            forall|x: int| 0 <= x < i ==> v@[x] < g,
        decreases v@.len() - i,
    {
        i = i + 1;
    }
    if i < v.len() && v[i] == g {
        assert(v@[i as int] == g);
        assert(v@.contains(g));
        return;
    }
    let ghost before = v@;
    v.insert(i, g);
    assert(v@ =~= before.insert(i as int, g));
    assert forall|x: u64| v@.contains(x) <==> (before.contains(x) || x == g) by {
        if v@.contains(x) {
            let k = choose|k: int| 0 <= k < v@.len() && v@[k] == x;
            if k < i {
                assert(before[k] == x);
            } else if k > i {
                assert(before[k - 1] == x);
            }
        }
        if before.contains(x) {
            let k = choose|k: int| 0 <= k < before.len() && before[k] == x;
            if k < i {
                assert(v@[k] == x);
            } else {
                assert(v@[k + 1] == x);
            }
        }
        if x == g {
            assert(v@[i as int] == x);
        }
    }
    assert(before == old(v)@);
    assert(forall|x: u64| v@.contains(x) <==> (old(v)@.contains(x) || x == g));
    assert(strictly_ascending(v@));
}

/// The generations named by the log files among `names`, ascending and
/// without repeats. Names that are not `<digits>.log` are left out.
pub fn sorted_log_generations(names: &Vec<String>) -> (r: Vec<u64>)
    ensures
        strictly_ascending(r@),
        forall|g: u64|
            r@.contains(g) <==> exists|i: int|
                0 <= i < names@.len() && generation_of(encode_utf8(#[trigger] names@[i]@)) == Some(
                    g,
                ),
{
    let mut out: Vec<u64> = Vec::new();
    let mut i: usize = 0;
    while i < names.len()
        invariant
            i <= names@.len(),
            strictly_ascending(out@),
            forall|g: u64|
                out@.contains(g) <==> exists|k: int|
                    0 <= k < i && generation_of(encode_utf8(#[trigger] names@[k]@)) == Some(g),
        decreases names@.len() - i,
    {
        let parsed = parse_generation(names[i].as_str());
        let ghost before = out@;
        match parsed {
            Some(g) => {
                insert_generation(&mut out, g);
            },
            None => {},
        }
        assert forall|g: u64|
            out@.contains(g) <==> exists|k: int|
                0 <= k < i + 1 && generation_of(encode_utf8(#[trigger] names@[k]@)) == Some(g) by {
            if out@.contains(g) && !before.contains(g) {
                assert(generation_of(encode_utf8(names@[i as int]@)) == Some(g));
            }
            if exists|k: int|
                0 <= k < i + 1 && generation_of(encode_utf8(#[trigger] names@[k]@)) == Some(g) {
                let k = choose|k: int|
                    0 <= k < i + 1 && generation_of(encode_utf8(#[trigger] names@[k]@)) == Some(g);
                if k < i {
                    assert(before.contains(g));
                }
            }
        }
        i = i + 1;
    }
    out
}

} // verus!
