//! Settings from the environment block.

use crate::internals::numa_parser;
use vstd::prelude::*;

verus! {

/// The entry sets `key`: the name, an equals sign and the value.
pub open spec fn sets(entry: Seq<u8>, key: Seq<u8>) -> bool {
    &&& entry.len() > key.len()
    &&& entry[key.len() as int] == 0x3d
    &&& forall|i: int| 0 <= i < key.len() ==> #[trigger] entry[i] == key[i]
}

/// Whether the entry sets `key`.
fn entry_sets(entry: &Vec<u8>, key: &[u8]) -> (r: bool)
    ensures
        r == sets(entry@, key@),
{
    if entry.len() <= key.len() {
        return false;
    }
    let mut i: usize = 0;
    while i < key.len()
        invariant
            i <= key@.len(),
            entry@.len() > key@.len(),
            forall|j: int| 0 <= j < i ==> #[trigger] entry@[j] == key@[j],
        decreases key@.len() - i,
    {
        if entry[i] != key[i] {
            return false;
        }
        i = i + 1;
    }
    entry[i] == 0x3d
}

/// Entry `i` is the first one that sets `key`.
pub open spec fn first_setting(environ: Seq<Vec<u8>>, key: Seq<u8>, i: int) -> bool {
    &&& 0 <= i < environ.len()
    &&& sets(environ[i]@, key)
    &&& forall|j: int| 0 <= j < i ==> !sets((#[trigger] environ[j])@, key)
}

/// Nothing sets `key`.
pub open spec fn unset(environ: Seq<Vec<u8>>, key: Seq<u8>) -> bool {
    forall|j: int| 0 <= j < environ.len() ==> !sets((#[trigger] environ[j])@, key)
}

/// Finds the entry that sets `key`.
fn getenv_raw(environ: &Vec<Vec<u8>>, key: &[u8]) -> (r: Option<usize>)
    ensures
        r is None <==> unset(environ@, key@),
        r matches Some(i) ==> first_setting(environ@, key@, i as int),
{
    let mut i: usize = 0;
    while i < environ.len()
        invariant
            i <= environ@.len(),
            forall|j: int| 0 <= j < i ==> !sets((#[trigger] environ@[j])@, key@),
        decreases environ@.len() - i,
    {
        if entry_sets(&environ[i], key) {
            return Some(i);
        }
        i = i + 1;
    }
    None
}

/// The number that the digits at the start of a value spell, zero when there are none.
pub open spec fn leading_number(entry: Seq<u8>, from: int) -> int {
    numa_parser::number(entry, from, numa_parser::digits_end(entry, from))
}

/// The number that the environment assigns to `key`, by the first entry that sets it.
pub open spec fn env_number(environ: Seq<Vec<u8>>, key: Seq<u8>) -> Option<int> {
    if unset(environ, key) {
        None
    } else {
        let i = choose|i: int| #[trigger] first_setting(environ, key, i);
        Some(leading_number(environ[i]@, key.len() as int + 1))
    }
}

/// The number that the environment assigns to `key` fits, if there is one.
pub open spec fn number_fits(environ: Seq<Vec<u8>>, key: Seq<u8>) -> bool {
    env_number(environ, key) matches Some(n) ==> n <= usize::MAX
}

proof fn lemma_first_setting(environ: Seq<Vec<u8>>, key: Seq<u8>, at: int)
    requires
        first_setting(environ, key, at),
    ensures
        env_number(environ, key) == Some(leading_number(environ[at]@, key.len() as int + 1)),
{
    let i = choose|i: int| #[trigger] first_setting(environ, key, i);
    if i < at {
        assert(!sets(environ[i]@, key));
    } else if i > at {
        assert(!sets(environ[at]@, key));
    }
    assert(!unset(environ, key));
}

/// Whether the number that the environment assigns to `key` fits, if there is one.
pub fn env_fits(environ: &Vec<Vec<u8>>, key: &[u8]) -> (r: bool)
    ensures
        r == number_fits(environ@, key@),
{
    let at: usize = match getenv_raw(environ, key) {
        None => {
            return true;
        },
        Some(i) => i,
    };
    let ghost s = environ@[at as int]@;
    let ghost from: int = key@.len() as int + 1;
    proof {
        lemma_first_setting(environ@, key@, at as int);
        numa_parser::lemma_between_digits(s, from);
        numa_parser::lemma_digits(s, from);
    }
    let size: usize = environ[at].len();
    let mut out: usize = 0;
    assert(key@.len() < size);
    let mut p: usize = key.len() + 1;
    while p < size && environ[at][p] >= 0x30 && environ[at][p] <= 0x39
        invariant
            at < environ@.len(),
            size == s.len(),
            s == environ@[at as int]@,
            from == key@.len() + 1,
            from <= p <= s.len(),
            out == numa_parser::number(s, from, p as int),
            env_number(environ@, key@) == Some(leading_number(s, from)),
            forall|x: int| from <= x < p ==> numa_parser::is_digit(#[trigger] s[x]),
            forall|x: int|
                from <= x < numa_parser::digits_end(s, from) ==> numa_parser::is_digit(
                    #[trigger] s[x],
                ),
            numa_parser::digits_end(s, from) <= s.len(),
        decreases s.len() - p,
    {
        proof {
            numa_parser::lemma_digits_all(s, from, p + 1);
            numa_parser::lemma_digits(s, p + 1);
            numa_parser::lemma_number_grows(
                s,
                from,
                p + 1,
                numa_parser::digits_end(s, from),
            );
            assert(numa_parser::number(s, from, p + 1) == numa_parser::number(s, from, p as int)
                * 10 + (s[p as int] - 0x30));
        }
        let digit: usize = (environ[at][p] - 0x30) as usize;
        out =
        match out.checked_mul(10) {
            None => {
                return false;
            },
            Some(tens) => match tens.checked_add(digit) {
                None => {
                    return false;
                },
                Some(sum) => sum,
            },
        };
        p = p + 1;
    }
    proof {
        numa_parser::lemma_digits_all(s, from, p as int);
    }
    true
}

/// The number that the environment assigns to `key`.
pub fn get_env_usize(environ: &Vec<Vec<u8>>, key: &[u8]) -> (r: Option<usize>)
    requires
        number_fits(environ@, key@),
    ensures
        r is Some <==> env_number(environ@, key@) is Some,
        r matches Some(n) ==> env_number(environ@, key@) == Some(n as int),
{
    let at: usize = match getenv_raw(environ, key) {
        None => {
            return None;
        },
        Some(i) => i,
    };
    let ghost s = environ@[at as int]@;
    let ghost from: int = key@.len() as int + 1;
    assert(first_setting(environ@, key@, at as int));
    proof {
        lemma_first_setting(environ@, key@, at as int);
    }
    let size: usize = environ[at].len();
    let mut out: usize = 0;
    assert(key@.len() < size);
    let mut p: usize = key.len() + 1;
    proof {
        numa_parser::lemma_between_digits(s, from);
        numa_parser::lemma_digits(s, from);
    }
    while p < size && environ[at][p] >= 0x30 && environ[at][p] <= 0x39
        invariant
            at < environ@.len(),
            size == s.len(),
            s == environ@[at as int]@,
            from == key@.len() + 1,
            from <= p <= s.len(),
            out == numa_parser::number(s, from, p as int),
            leading_number(s, from) <= usize::MAX,
            forall|x: int| from <= x < p ==> numa_parser::is_digit(#[trigger] s[x]),
            forall|x: int|
                from <= x < numa_parser::digits_end(s, from) ==> numa_parser::is_digit(
                    #[trigger] s[x],
                ),
            numa_parser::digits_end(s, from) <= s.len(),
        decreases s.len() - p,
    {
        proof {
            numa_parser::lemma_digits_all(s, from, p + 1);
            numa_parser::lemma_digits(s, p + 1);
            numa_parser::lemma_number_grows(
                s,
                from,
                p + 1,
                numa_parser::digits_end(s, from),
            );
            assert(numa_parser::number(s, from, p + 1) == numa_parser::number(s, from, p as int)
                * 10 + (s[p as int] - 0x30));
        }
        out = out * 10 + (environ[at][p] - 0x30) as usize;
        p = p + 1;
    }
    proof {
        numa_parser::lemma_digits_all(s, from, p as int);
    }
    Some(out)
}

/// The first entry that sets a name counts, and later ones do not.
pub proof fn law_first_entry_counts(environ: Seq<Vec<u8>>, key: Seq<u8>, at: int)
    requires
        first_setting(environ, key, at),
    ensures
        env_number(environ, key) == Some(leading_number(environ[at]@, key.len() as int + 1)),
        forall|longer: Seq<Vec<u8>>|
            environ.is_prefix_of(longer) ==> #[trigger] env_number(longer, key) == env_number(
                environ,
                key,
            ),
{
    lemma_first_setting(environ, key, at);
    assert forall|longer: Seq<Vec<u8>>| environ.is_prefix_of(longer) implies #[trigger] env_number(
        longer,
        key,
    ) == env_number(environ, key) by {
        assert forall|j: int| 0 <= j < environ.len() implies #[trigger] longer[j]
            == environ[j] by {
            assert(environ == longer.subrange(0, environ.len() as int));
            assert(longer.subrange(0, environ.len() as int)[j] == longer[j]);
        }
        assert(longer[at] == environ[at]);
        assert(first_setting(longer, key, at)) by {
            assert forall|j: int| 0 <= j < at implies !sets((#[trigger] longer[j])@, key) by {
                assert(longer[j] == environ[j]);
            }
        }
        lemma_first_setting(longer, key, at);
    }
}

/// An entry sets a name exactly where it is the name, an equals sign and any value.
pub proof fn law_entries(key: Seq<u8>, value: Seq<u8>, entry: Seq<u8>)
    ensures
        sets(key.push(0x3d) + value, key),
        sets(entry, key) ==> entry == key.push(0x3d) + entry.skip(key.len() as int + 1),
{
    let whole = key.push(0x3d) + value;
    assert forall|i: int| 0 <= i < key.len() implies #[trigger] whole[i] == key[i] by {}
    assert(whole[key.len() as int] == 0x3d);
    if sets(entry, key) {
        let again = key.push(0x3d) + entry.skip(key.len() as int + 1);
        assert(again.len() == entry.len());
        assert forall|i: int| 0 <= i < entry.len() implies again[i] == entry[i] by {}
        assert(again =~= entry);
    }
}

} // verus!
