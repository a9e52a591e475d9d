use vstd::prelude::*;
use vstd::string::StringExecFns;

use crate::kv::strictly_increasing;

verus! {

/// The decimal digit `d`.
pub open spec fn digit(d: nat) -> char {
    seq!['0', '1', '2', '3', '4', '5', '6', '7', '8', '9'][d as int]
}

/// `n` in decimal, without leading zeros.
pub open spec fn decimal(n: nat) -> Seq<char>
    decreases n,
{
    if n < 10 {
        seq![digit(n)]
    } else {
        decimal(n / 10).push(digit(n % 10))
    }
}

/// The name of the file of generation `gen`.
pub open spec fn log_name_of(gen: u64) -> Seq<char> {
    decimal(gen as nat) + ".log"@
}

/// Relies on `u64`'s `Display`, through `to_string`: the number in decimal
/// digits, without sign or leading zeros.
#[verifier::external_body]
fn decimal_string(n: u64) -> (r: String)
    ensures
        r@ == decimal(n as nat),
{
    n.to_string()
}

/// Relies on `str::parse::<u64>`: it gives back `n` for the decimal
/// rendering of `n`.
#[verifier::external_body]
fn parse_u64(s: &str) -> (r: Option<u64>)
    ensures
        forall|n: u64| s@ == decimal(n as nat) ==> r == Some(n),
{
    s.parse::<u64>().ok()
}

/// Relies on `str::strip_suffix`: `s` without `suffix`, where `s` ends
/// with it.
#[verifier::external_body]
fn strip_suffix<'a>(s: &'a str, suffix: &str) -> (r: Option<&'a str>)
    ensures
        r is Some <==> (suffix@.len() <= s@.len() && s@.subrange(
            s@.len() - suffix@.len(),
            s@.len() as int,
        ) == suffix@),
        r matches Some(p) ==> p@ == s@.subrange(0, s@.len() - suffix@.len()),
{
    s.strip_suffix(suffix)
}

/// Relies on `slice::sort_unstable`: the same numbers, in increasing order.
#[verifier::external_body]
fn sort_gens(v: &mut Vec<u64>)
    ensures
        final(v)@.to_multiset() == old(v)@.to_multiset(),
        forall|i: int, j: int| 0 <= i < j < final(v)@.len() ==> final(v)@[i] <= final(v)@[j],
{
    v.sort_unstable()
}

/// The file name of generation `gen`: its decimal digits and `.log`.
pub fn log_name(gen: u64) -> (r: String)
    ensures
        r@ == log_name_of(gen),
{
    let mut r = decimal_string(gen);
    r.append(".log");
    r
}

/// The generation that a file name stands for, where it is the name of a
/// log file.
pub fn parse_gen(name: &str) -> (r: Option<u64>)
    ensures
        forall|g: u64| (r == Some(g)) <==> name@ == #[trigger] log_name_of(g),
{
    let suffix = ".log";
    match strip_suffix(name, suffix) {
        None => {
            assert forall|g: u64| !(name@ == #[trigger] log_name_of(g)) by {
                if name@ == log_name_of(g) {
                    assert(name@.subrange(name@.len() - suffix@.len(), name@.len() as int)
                        =~= suffix@);
                }
            }
            None
        },
        Some(stem) => {
            proof {
                assert(name@ =~= stem@ + suffix@);
            }
            match parse_u64(stem) {
                None => {
                    assert forall|g: u64| !(name@ == #[trigger] log_name_of(g)) by {
                        if name@ == log_name_of(g) {
                            assert(stem@ =~= name@.subrange(0, name@.len() - suffix@.len()));
                            assert(decimal(g as nat) =~= name@.subrange(
                                0,
                                name@.len() - suffix@.len(),
                            ));
                        }
                    }
                    None
                },
                Some(g) => {
                    let canonical = decimal_string(g);
                    if canonical == stem.to_owned() {
                        assert forall|h: u64| name@ == #[trigger] log_name_of(h) implies h == g by {
                            assert(decimal(h as nat) =~= name@.subrange(
                                0,
                                name@.len() - suffix@.len(),
                            ));
                        }
                        Some(g)
                    } else {
                        assert forall|h: u64| !(name@ == #[trigger] log_name_of(h)) by {
                            if name@ == log_name_of(h) {
                                assert(decimal(h as nat) =~= name@.subrange(
                                    0,
                                    name@.len() - suffix@.len(),
                                ));
                            }
                        }
                        None
                    }
                },
            }
        },
    }
}

/// Some name among the first `n` of `names` is the file name of `g`.
pub open spec fn names_gen(names: Seq<String>, n: int, g: u64) -> bool {
    exists|i: int| 0 <= i < n && names[i]@ == log_name_of(g)
}

/// The generations among the file names of a storage directory, each once,
/// in increasing order. Names that are not log file names are passed over.
pub fn sorted_gen_list(names: &Vec<String>) -> (r: Vec<u64>)
    ensures
        strictly_increasing(r@),
        forall|g: u64| r@.contains(g) <==> #[trigger] names_gen(names@, names@.len() as int, g),
{
    let mut found: Vec<u64> = Vec::new();
    let mut i: usize = 0;
    while i < names.len()
        invariant
            i <= names@.len(),
            forall|g: u64| found@.contains(g) <==> #[trigger] names_gen(names@, i as int, g),
        decreases names@.len() - i,
    {
        let ghost before = found@;
        match parse_gen(names[i].as_str()) {
            Some(g) => {
                found.push(g);
                assert forall|h: u64|
                    found@.contains(h) <==> #[trigger] names_gen(names@, i + 1, h) by {
                    if found@.contains(h) {
                        if h == g {
                            assert(names@[i as int]@ == log_name_of(h));
                        } else {
                            let k = choose|k: int| 0 <= k < found@.len() && found@[k] == h;
                            assert(before[k] == h);
                            assert(before.contains(h));
                            assert(names_gen(names@, i as int, h));
                            let j = choose|j: int| 0 <= j < i && names@[j]@ == log_name_of(h);
                        }
                    }
                    if names_gen(names@, i + 1, h) {
                        let j = choose|j: int| 0 <= j < i + 1 && names@[j]@ == log_name_of(h);
                        if j < i {
                            assert(names_gen(names@, i as int, h));
                            let k = choose|k: int| 0 <= k < before.len() && before[k] == h;
                            assert(found@[k] == h);
                        } else {
                            assert(found@[found@.len() - 1] == h);
                        }
                    }
                }
            },
            None => {
                assert forall|h: u64|
                    found@.contains(h) <==> #[trigger] names_gen(names@, i + 1, h) by {
                    if found@.contains(h) {
                        assert(names_gen(names@, i as int, h));
                        let j = choose|j: int| 0 <= j < i && names@[j]@ == log_name_of(h);
                    }
                    if names_gen(names@, i + 1, h) {
                        let j = choose|j: int| 0 <= j < i + 1 && names@[j]@ == log_name_of(h);
                        assert(j != i);
                        assert(names_gen(names@, i as int, h));
                    }
                }
            },
        }
        i = i + 1;
    }
    let ghost unsorted = found@;
    sort_gens(&mut found);
    let mut r: Vec<u64> = Vec::new();
    let mut k: usize = 0;
    while k < found.len()
        invariant
            k <= found@.len(),
            found@.to_multiset() == unsorted.to_multiset(),
            forall|g: u64|
                unsorted.contains(g) <==> #[trigger] names_gen(names@, names@.len() as int, g),
            forall|a: int, b: int| 0 <= a < b < found@.len() ==> found@[a] <= found@[b],
            strictly_increasing(r@),
            k > 0 ==> r@.len() > 0 && r@.last() == found@[k - 1],
            k == 0 ==> r@.len() == 0,
            forall|g: u64| r@.contains(g) <==> exists|j: int| 0 <= j < k && found@[j] == g,
        decreases found@.len() - k,
    {
        let g = found[k];
        let ghost before = r@;
        if r.len() == 0 || r[r.len() - 1] < g {
            r.push(g);
            assert forall|h: u64|
                r@.contains(h) <==> exists|j: int| 0 <= j < k + 1 && found@[j] == h by {
                if r@.contains(h) {
                    if h == g {
                        assert(0 <= k < k + 1 && found@[k as int] == h);
                    } else {
                        let a = choose|a: int| 0 <= a < r@.len() && r@[a] == h;
                        assert(a < before.len());
                        assert(before[a] == h);
                        assert(before.contains(h));
                        let j = choose|j: int| 0 <= j < k && found@[j] == h;
                        assert(0 <= j < k + 1 && found@[j] == h);
                    }
                }
                if exists|j: int| 0 <= j < k + 1 && found@[j] == h {
                    let j = choose|j: int| 0 <= j < k + 1 && found@[j] == h;
                    if j < k {
                        assert(0 <= j < k && found@[j] == h);
                        assert(before.contains(h));
                        let a = choose|a: int| 0 <= a < before.len() && before[a] == h;
                        assert(r@[a] == h);
                        assert(r@.contains(h));
                    } else {
                        assert(r@[r@.len() - 1] == h);
                        assert(r@.contains(h));
                    }
                }
            }
        } else {
            assert forall|h: u64|
                r@.contains(h) <==> exists|j: int| 0 <= j < k + 1 && found@[j] == h by {
                if h == g {
                    assert(found@[k - 1] == g);
                    assert(r@[r@.len() - 1] == g);
                }
            }
        }
        k = k + 1;
    }
    proof {
        unsorted.to_multiset_ensures();
        found@.to_multiset_ensures();
    }
    assert forall|g: u64| r@.contains(g) <==> #[trigger] names_gen(names@, names@.len() as int, g) by {
        if r@.contains(g) {
            let j = choose|j: int| 0 <= j < k && found@[j] == g;
            assert(found@.contains(g));
            assert(found@.to_multiset().count(g) > 0);
            assert(unsorted.to_multiset().count(g) > 0);
            assert(unsorted.contains(g));
        }
        if names_gen(names@, names@.len() as int, g) {
            assert(unsorted.contains(g));
            assert(unsorted.to_multiset().count(g) > 0);
            assert(found@.to_multiset().count(g) > 0);
            assert(found@.contains(g));
            let j = choose|j: int| 0 <= j < found@.len() && found@[j] == g;
            assert(0 <= j < k && found@[j] == g);
            assert(r@.contains(g));
        }
    }
    r
}

} // verus!
