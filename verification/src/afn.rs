//! Per-pin alternate-function extraction.
//!
//! Each signal of a pin optionally resolves to a `(function number,
//! function name)` pair; signals that do not resolve are silently skipped.
//! The surviving pairs are sorted ascending by number, ties broken by the
//! name's lexicographic order, and exact duplicates are dropped. A fixed
//! set of debug pins additionally carries a reset-mode override.

use crate::strutil::{lemma_str_lt_trans, lemma_str_lt_trichotomy, str_lt, str_lt_exec};
use crate::types::{Error, Pin, Signal};
use vstd::prelude::*;

verus! {

/// Strict order on alternate-function pairs: by number, then by the
/// name's lexicographic order.
pub open spec fn pair_lt(x: (u8, Seq<char>), y: (u8, Seq<char>)) -> bool {
    x.0 < y.0 || (x.0 == y.0 && str_lt(x.1, y.1))
}

/// The mathematical value of one resolved pair.
pub open spec fn pair_view(p: (u8, String)) -> (u8, Seq<char>) {
    (p.0, p.1@)
}

/// The mathematical values of a list of resolved pairs.
pub open spec fn pairs_view(s: Seq<(u8, String)>) -> Seq<(u8, Seq<char>)> {
    s.map_values(|p: (u8, String)| pair_view(p))
}

/// The pairs that the signals resolve to, in signal order; unresolved
/// signals contribute nothing.
pub open spec fn sig_pairs(sigs: Seq<Signal>) -> Seq<(u8, Seq<char>)>
    decreases sigs.len(),
{
    if sigs.len() == 0 {
        Seq::empty()
    } else {
        let rest = sig_pairs(sigs.drop_last());
        match sigs.last().af {
            Some(p) => rest.push(pair_view(p)),
            None => rest,
        }
    }
}

/// `p` inserted into `s` before the first element it orders below;
/// dropped instead when an equal element is met first.
pub open spec fn insert_pair(s: Seq<(u8, Seq<char>)>, p: (u8, Seq<char>)) -> Seq<(u8, Seq<char>)>
    decreases s.len(),
{
    if s.len() == 0 {
        seq![p]
    } else if pair_lt(p, s[0]) {
        seq![p] + s
    } else if p == s[0] {
        s
    } else {
        seq![s[0]] + insert_pair(s.skip(1), p)
    }
}

/// The pairs of `ps`, in ascending order with exact duplicates dropped
/// (each pair kept once).
pub open spec fn sorted_unique(ps: Seq<(u8, Seq<char>)>) -> Seq<(u8, Seq<char>)>
    decreases ps.len(),
{
    if ps.len() == 0 {
        Seq::empty()
    } else {
        insert_pair(sorted_unique(ps.drop_last()), ps.last())
    }
}

/// Whether `s` is strictly ascending under [`pair_lt`]; such a sequence
/// holds no duplicates.
pub open spec fn pairs_sorted(s: Seq<(u8, Seq<char>)>) -> bool {
    forall|i: int, j: int| 0 <= i < j < s.len() ==> pair_lt(#[trigger] s[i], #[trigger] s[j])
}

/// Of `x < y`, `x == y` and `y < x`, exactly one holds.
pub proof fn lemma_pair_trichotomy(x: (u8, Seq<char>), y: (u8, Seq<char>))
    ensures
        pair_lt(x, y) || pair_lt(y, x) || x == y,
        pair_lt(x, y) ==> !pair_lt(y, x) && x != y,
{
    lemma_str_lt_trichotomy(x.1, y.1);
}

/// [`pair_lt`] is transitive.
pub proof fn lemma_pair_trans(x: (u8, Seq<char>), y: (u8, Seq<char>), z: (u8, Seq<char>))
    requires
        pair_lt(x, y),
        pair_lt(y, z),
    ensures
        pair_lt(x, z),
{
    if x.0 == y.0 && y.0 == z.0 {
        lemma_str_lt_trans(x.1, y.1, z.1);
    }
}

/// Inserting keeps a sequence sorted, and its members are the old members
/// together with the inserted pair.
pub proof fn lemma_insert_pair(s: Seq<(u8, Seq<char>)>, p: (u8, Seq<char>))
    requires
        pairs_sorted(s),
    ensures
        pairs_sorted(insert_pair(s, p)),
        insert_pair(s, p).contains(p),
        forall|q: (u8, Seq<char>)| insert_pair(s, p).contains(q) <==> (s.contains(q) || q == p),
    decreases s.len(),
{
    let out = insert_pair(s, p);
    if s.len() == 0 {
        assert(out =~= seq![p]);
        assert(out.contains(p)) by { assert(out[0] == p) };
        assert forall|q: (u8, Seq<char>)| out.contains(q) implies (s.contains(q) || q == p) by {
            let i = choose|i: int| 0 <= i < out.len() && out[i] == q;
            assert(i == 0);
        }
    } else if pair_lt(p, s[0]) {
        assert(out[0] == p);
        assert(out.contains(p));
        assert forall|i: int, j: int| 0 <= i < j < out.len() implies pair_lt(out[i], out[j]) by {
            if i == 0 {
                assert(out[j] == s[j - 1]);
                if j == 1 {
                    assert(pair_lt(p, s[0]));
                } else {
                    lemma_pair_trans(p, s[0], s[j - 1]);
                }
            } else {
                assert(out[i] == s[i - 1] && out[j] == s[j - 1]);
            }
        }
        assert forall|q: (u8, Seq<char>)| out.contains(q) implies (s.contains(q) || q == p) by {
            let i = choose|i: int| 0 <= i < out.len() && out[i] == q;
            if i > 0 {
                assert(s[i - 1] == q);
            }
        }
        assert forall|q: (u8, Seq<char>)| (s.contains(q) || q == p) implies out.contains(q) by {
            if q == p {
                assert(out[0] == q);
            } else {
                let i = choose|i: int| 0 <= i < s.len() && s[i] == q;
                assert(out[i + 1] == q);
            }
        }
    } else if p == s[0] {
        assert(out[0] == p);
        assert(out.contains(p));
    } else {
        lemma_pair_trichotomy(p, s[0]);
        assert(pair_lt(s[0], p));
        assert(pairs_sorted(s.skip(1))) by {
            assert forall|i: int, j: int|
                0 <= i < j < s.skip(1).len() implies pair_lt(s.skip(1)[i], s.skip(1)[j]) by {
                assert(s.skip(1)[i] == s[i + 1] && s.skip(1)[j] == s[j + 1]);
            }
        }
        lemma_insert_pair(s.skip(1), p);
        let rest = insert_pair(s.skip(1), p);
        assert(rest.contains(p));
        let kp = choose|k: int| 0 <= k < rest.len() && rest[k] == p;
        assert(out[kp + 1] == p);
        assert(out.contains(p));
        assert forall|i: int, j: int| 0 <= i < j < out.len() implies pair_lt(out[i], out[j]) by {
            if i == 0 {
                assert(out[j] == rest[j - 1]);
                assert(rest.contains(rest[j - 1]));
                if rest[j - 1] == p {
                    assert(pair_lt(s[0], p));
                } else {
                    assert(s.skip(1).contains(rest[j - 1]));
                    let k = choose|k: int|
                        0 <= k < s.skip(1).len() && s.skip(1)[k] == rest[j - 1];
                    assert(s.skip(1)[k] == s[k + 1]);
                    assert(pair_lt(s[0], s[k + 1]));
                }
            } else {
                assert(out[i] == rest[i - 1] && out[j] == rest[j - 1]);
            }
        }
        assert forall|q: (u8, Seq<char>)| out.contains(q) implies (s.contains(q) || q == p) by {
            let i = choose|i: int| 0 <= i < out.len() && out[i] == q;
            if i == 0 {
                assert(s[0] == q);
            } else {
                assert(rest[i - 1] == q);
                assert(rest.contains(q));
                if q != p {
                    assert(s.skip(1).contains(q));
                    let k = choose|k: int| 0 <= k < s.skip(1).len() && s.skip(1)[k] == q;
                    assert(s.skip(1)[k] == s[k + 1]);
                }
            }
        }
        assert forall|q: (u8, Seq<char>)| (s.contains(q) || q == p) implies out.contains(q) by {
            if s.contains(q) {
                let i = choose|i: int| 0 <= i < s.len() && s[i] == q;
                if i == 0 {
                    assert(out[0] == q);
                } else {
                    assert(s.skip(1)[i - 1] == q);
                    assert(s.skip(1).contains(q));
                    assert(rest.contains(q));
                    let k = choose|k: int| 0 <= k < rest.len() && rest[k] == q;
                    assert(out[k + 1] == q);
                }
            } else {
                assert(q == p && out.contains(p));
            }
        }
    }
}

/// The sorted-unique form of any pair list is sorted, and holds exactly
/// the pairs of the list.
pub proof fn lemma_sorted_unique_props(ps: Seq<(u8, Seq<char>)>)
    ensures
        pairs_sorted(sorted_unique(ps)),
        forall|q: (u8, Seq<char>)| sorted_unique(ps).contains(q) <==> ps.contains(q),
    decreases ps.len(),
{
    if ps.len() == 0 {
    } else {
        lemma_sorted_unique_props(ps.drop_last());
        lemma_insert_pair(sorted_unique(ps.drop_last()), ps.last());
        assert forall|q: (u8, Seq<char>)| ps.contains(q) implies sorted_unique(ps).contains(q) by {
            assert(sorted_unique(ps) == insert_pair(sorted_unique(ps.drop_last()), ps.last()));
            let i = choose|i: int| 0 <= i < ps.len() && ps[i] == q;
            if i < ps.len() - 1 {
                assert(ps.drop_last()[i] == q);
                assert(ps.drop_last().contains(q));
                assert(sorted_unique(ps.drop_last()).contains(q));
                assert(insert_pair(sorted_unique(ps.drop_last()), ps.last()).contains(q));
            } else {
                assert(q == ps.last());
                assert(insert_pair(sorted_unique(ps.drop_last()), ps.last()).contains(q));
            }
        }
        assert forall|q: (u8, Seq<char>)| sorted_unique(ps).contains(q) implies ps.contains(q) by {
            if ps.drop_last().contains(q) {
                let i = choose|i: int| 0 <= i < ps.drop_last().len() && ps.drop_last()[i] == q;
                assert(ps[i] == q);
            } else if q == ps.last() {
                assert(ps[ps.len() - 1] == q);
            }
        }
    }
}

/// Whether `x` orders strictly before `y`.
fn pair_lt_exec(x: &(u8, String), y: &(u8, String)) -> (r: bool)
    ensures
        r == pair_lt(pair_view(*x), pair_view(*y)),
{
    if x.0 < y.0 {
        true
    } else if y.0 < x.0 {
        false
    } else {
        str_lt_exec(x.1.as_str(), y.1.as_str())
    }
}

/// Inserts `x` into the sorted pair list `v`, dropping it when an equal
/// pair is already present.
fn insert_sorted(v: &mut Vec<(u8, String)>, x: (u8, String))
    ensures
        pairs_view(final(v)@) == insert_pair(pairs_view(old(v)@), pair_view(x)),
{
    let ghost orig = pairs_view(v@);
    let ghost xv = pair_view(x);
    let mut i: usize = 0;
    proof {
        assert(orig.take(0) =~= Seq::empty());
        assert(orig.skip(0) =~= orig);
        assert(insert_pair(orig, xv) =~= orig.take(0) + insert_pair(orig.skip(0), xv));
    }
    while i < v.len() && pair_lt_exec(&v[i], &x)
        invariant
            i <= v.len(),
            orig == pairs_view(v@),
            orig.len() == v@.len(),
            insert_pair(orig, xv) == orig.take(i as int) + insert_pair(orig.skip(i as int), xv),
            xv == pair_view(x),
        decreases v.len() - i,
    {
        proof {
            let rest = orig.skip(i as int);
            assert(rest[0] == orig[i as int]);
            assert(pair_lt(rest[0], xv));
            lemma_pair_trichotomy(xv, rest[0]);
            assert(insert_pair(rest, xv) == seq![rest[0]] + insert_pair(rest.skip(1), xv));
            assert(rest.skip(1) =~= orig.skip(i + 1));
            assert(orig.take(i as int) + (seq![rest[0]] + insert_pair(orig.skip(i + 1), xv))
                =~= orig.take(i + 1) + insert_pair(orig.skip(i + 1), xv));
        }
        i = i + 1;
    }
    if i == v.len() {
        proof {
            assert(orig.skip(i as int) =~= Seq::empty());
            assert(insert_pair(orig, xv) =~= orig.take(i as int).push(xv));
            assert(orig.take(i as int) =~= orig);
        }
        v.push(x);
        assert(pairs_view(v@) =~= orig.push(xv));
    } else {
        let same = v[i].0 == x.0 && v[i].1 == x.1;
        proof {
            let rest = orig.skip(i as int);
            assert(rest[0] == orig[i as int]);
            assert(!pair_lt(rest[0], xv));
            lemma_pair_trichotomy(xv, rest[0]);
        }
        if same {
            proof {
                let rest = orig.skip(i as int);
                assert(xv == rest[0]);
                assert(!pair_lt(xv, rest[0])) by { lemma_pair_trichotomy(xv, rest[0]) };
                assert(insert_pair(rest, xv) == rest);
                assert(orig.take(i as int) + orig.skip(i as int) =~= orig);
            }
        } else {
            proof {
                let rest = orig.skip(i as int);
                assert(xv != rest[0]);
                assert(pair_lt(xv, rest[0]));
                assert(insert_pair(rest, xv) == seq![xv] + rest);
                assert(orig.take(i as int) + (seq![xv] + orig.skip(i as int)) =~= orig.insert(
                    i as int,
                    xv,
                ));
            }
            v.insert(i, x);
            assert(pairs_view(v@) =~= orig.insert(i as int, xv));
        }
    }
}

/// The alternate functions of one pin: the pairs its signals resolve to,
/// ascending by number then name, exact duplicates dropped. Signals that
/// resolve to no alternate function are skipped silently, so this never
/// fails.
pub fn get_pin_af_numbers(pin: &Pin) -> (r: Result<Vec<(u8, String)>, Error>)
    ensures
        r is Ok,
        pairs_view(r->Ok_0@) == sorted_unique(sig_pairs(pin.pin_signals@)),
        pairs_sorted(pairs_view(r->Ok_0@)),
        forall|q: (u8, Seq<char>)|
            pairs_view(r->Ok_0@).contains(q) <==> sig_pairs(pin.pin_signals@).contains(q),
{
    let mut numbers: Vec<(u8, String)> = Vec::new();
    let n = pin.pin_signals.len();
    proof {
        assert(pin.pin_signals@.take(0) =~= Seq::empty());
        assert(pairs_view(numbers@) =~= Seq::empty());
    }
    let mut i: usize = 0;
    while i < n
        invariant
            i <= n,
            n == pin.pin_signals@.len(),
            pairs_view(numbers@) == sorted_unique(sig_pairs(pin.pin_signals@.take(i as int))),
        decreases n - i,
    {
        let ghost prefix = pin.pin_signals@.take(i as int);
        let ghost step = pin.pin_signals@.take(i + 1);
        proof {
            assert(step.drop_last() =~= prefix);
            assert(step.last() == pin.pin_signals@[i as int]);
        }
        match pin.pin_signals[i].af() {
            Ok(af) => {
                proof {
                    assert(sig_pairs(step) == sig_pairs(prefix).push(
                        pair_view(pin.pin_signals@[i as int].af->0),
                    ));
                }
                let ghost before = sig_pairs(prefix);
                proof {
                    assert(sig_pairs(step).drop_last() =~= before);
                    assert(sorted_unique(sig_pairs(step)) == insert_pair(
                        sorted_unique(before),
                        pair_view(pin.pin_signals@[i as int].af->0),
                    ));
                }
                insert_sorted(&mut numbers, af);
            },
            Err(_) => {
                proof {
                    assert(sig_pairs(step) == sig_pairs(prefix));
                }
            },
        }
        i = i + 1;
    }
    proof {
        assert(pin.pin_signals@.take(n as int) =~= pin.pin_signals@);
        lemma_sorted_unique_props(sig_pairs(pin.pin_signals@));
    }
    Ok(numbers)
}

/// Whether the pin at `(port, number)` is one of the package-level debug
/// pins, which default to their debug function after reset.
pub open spec fn debug_pin(port: char, number: u32) -> bool {
    ||| port == 'A' && (number == 13 || number == 14 || number == 15)
    ||| port == 'B' && (number == 3 || number == 4)
}

/// The reset-mode override of a pin: the debug placeholder for the five
/// debug pins, nothing for every other pin. The override is computed for
/// the caller to decide on; the generated lines do not currently carry it.
pub fn get_pin_reset_mode(pin: &Pin) -> (r: Result<Option<&'static str>, Error>)
    ensures
        match r {
            Ok(m) => {
                &&& pin.port is Some
                &&& pin.number is Some
                &&& match m {
                    Some(s) => debug_pin(pin.port->0, pin.number->0) && s@ == "super::Debugger"@,
                    None => !debug_pin(pin.port->0, pin.number->0),
                }
            },
            Err(e) => match e {
                Error::UnknownPort(n) => pin.port is None && n@ == pin.name@,
                Error::UnknownNumber(n) => pin.port is Some && pin.number is None && n@
                    == pin.name@,
                _ => false,
            },
        },
{
    let port = pin.port()?;
    let number = pin.number()?;
    let mode = if (port == 'A' && (number == 13 || number == 14 || number == 15)) || (port == 'B'
        && (number == 3 || number == 4)) {
        Some("super::Debugger")
    } else {
        None
    };
    Ok(mode)
}

} // verus!
