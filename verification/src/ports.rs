//! Pin-to-port aggregation.
//!
//! The pins of one IP block are grouped by port letter. Within a group,
//! pins carrying one of three fixed non-GPIO names are excluded, the rest
//! are ordered ascending by pin number, and of pins sharing a number only
//! the first (in metadata order) is kept. The ports come out ascending by
//! letter. A pin whose port letter or pin number cannot be derived aborts
//! the aggregation.

use crate::strutil::str_eq_exec;
use crate::types::{Error, Pin};
use vstd::prelude::*;

verus! {

/// One port: its letter and the pins that survive exclusion and
/// deduplication, ascending by pin number.
pub struct Port<'a> {
    /// The port letter.
    pub id: char,
    /// The port's pins, ascending by number, unique by number.
    pub pins: Vec<&'a Pin>,
}

/// The values behind a sequence of pin references.
pub open spec fn pins_view(s: Seq<&Pin>) -> Seq<Pin> {
    s.map_values(|p: &Pin| *p)
}

/// Whether `n` is one of the names excluded from every port: non-GPIO
/// power and oscillator pins that appear in the metadata.
pub open spec fn excluded_name(n: Seq<char>) -> bool {
    n == "PDR_ON"@ || n == "PC14OSC32_IN"@ || n == "PC15OSC32_OUT"@
}

/// Whether the pin's port letter and number were both derived.
pub open spec fn pin_ok(p: Pin) -> bool {
    p.port is Some && p.number is Some
}

/// Whether every pin of `ps` is derivable.
pub open spec fn pins_ok(ps: Seq<Pin>) -> bool {
    forall|i: int| 0 <= i < ps.len() ==> pin_ok(#[trigger] ps[i])
}

/// Whether `e` is the error the aggregation reports for the underivable
/// pin `p`: its port when that is missing, else its number.
pub open spec fn pin_error(e: Error, p: Pin) -> bool {
    match e {
        Error::UnknownPort(n) => p.port is None && n@ == p.name@,
        Error::UnknownNumber(n) => p.port is Some && p.number is None && n@ == p.name@,
        _ => false,
    }
}

/// `c` inserted into the ascending letter list `s`; dropped when already
/// present.
pub open spec fn insert_id(s: Seq<char>, c: char) -> Seq<char>
    decreases s.len(),
{
    if s.len() == 0 {
        seq![c]
    } else if c < s[0] {
        seq![c] + s
    } else if c == s[0] {
        s
    } else {
        seq![s[0]] + insert_id(s.skip(1), c)
    }
}

/// The port letters of `ps`, ascending, each once; meaningful when every
/// pin's port was derived.
pub open spec fn port_ids(ps: Seq<Pin>) -> Seq<char>
    decreases ps.len(),
{
    if ps.len() == 0 {
        Seq::empty()
    } else {
        insert_id(port_ids(ps.drop_last()), ps.last().port->0)
    }
}

/// The pins of `ps` on port `id` that are not excluded by name, in
/// metadata order.
pub open spec fn port_group(ps: Seq<Pin>, id: char) -> Seq<Pin>
    decreases ps.len(),
{
    if ps.len() == 0 {
        Seq::empty()
    } else {
        let rest = port_group(ps.drop_last(), id);
        if ps.last().port == Some(id) && !excluded_name(ps.last().name@) {
            rest.push(ps.last())
        } else {
            rest
        }
    }
}

/// `p` inserted into `s` by pin number; dropped when its number is
/// already present, so the earlier pin wins.
pub open spec fn insert_pin(s: Seq<Pin>, p: Pin) -> Seq<Pin>
    decreases s.len(),
{
    if s.len() == 0 {
        seq![p]
    } else if p.number->0 < s[0].number->0 {
        seq![p] + s
    } else if p.number->0 == s[0].number->0 {
        s
    } else {
        seq![s[0]] + insert_pin(s.skip(1), p)
    }
}

/// The pins of a group ordered ascending by number, keeping of pins with
/// equal numbers only the first in group order.
pub open spec fn canon_pins(ps: Seq<Pin>) -> Seq<Pin>
    decreases ps.len(),
{
    if ps.len() == 0 {
        Seq::empty()
    } else {
        insert_pin(canon_pins(ps.drop_last()), ps.last())
    }
}

/// Whether the numbers of `s` are strictly ascending.
pub open spec fn nums_sorted(s: Seq<Pin>) -> bool {
    forall|i: int, j: int|
        0 <= i < j < s.len() ==> (#[trigger] s[i]).number->0 < (#[trigger] s[j]).number->0
}

/// Inserting a pin keeps the numbers ascending, and adds no pin from
/// outside.
pub proof fn lemma_insert_pin(s: Seq<Pin>, p: Pin)
    requires
        nums_sorted(s),
    ensures
        nums_sorted(insert_pin(s, p)),
        forall|q: Pin| insert_pin(s, p).contains(q) ==> s.contains(q) || q == p,
    decreases s.len(),
{
    let out = insert_pin(s, p);
    if s.len() == 0 {
        assert forall|q: Pin| out.contains(q) implies s.contains(q) || q == p by {
            let i = choose|i: int| 0 <= i < out.len() && out[i] == q;
            assert(i == 0);
        }
    } else if p.number->0 < s[0].number->0 {
        assert forall|i: int, j: int|
            0 <= i < j < out.len() implies out[i].number->0 < out[j].number->0 by {
            if i == 0 {
                assert(out[j] == s[j - 1]);
            } else {
                assert(out[i] == s[i - 1] && out[j] == s[j - 1]);
            }
        }
        assert forall|q: Pin| out.contains(q) implies s.contains(q) || q == p by {
            let i = choose|i: int| 0 <= i < out.len() && out[i] == q;
            if i > 0 {
                assert(s[i - 1] == q);
            }
        }
    } else if p.number->0 == s[0].number->0 {
    } else {
        assert(nums_sorted(s.skip(1))) by {
            assert forall|i: int, j: int|
                0 <= i < j < s.skip(1).len() implies (s.skip(1)[i]).number->0 < (
            s.skip(1)[j]).number->0 by {
                assert(s.skip(1)[i] == s[i + 1] && s.skip(1)[j] == s[j + 1]);
            }
        }
        lemma_insert_pin(s.skip(1), p);
        let rest = insert_pin(s.skip(1), p);
        assert forall|i: int, j: int|
            0 <= i < j < out.len() implies out[i].number->0 < out[j].number->0 by {
            if i == 0 {
                assert(out[j] == rest[j - 1]);
                assert(rest.contains(rest[j - 1]));
                if rest[j - 1] == p {
                } else {
                    assert(s.skip(1).contains(rest[j - 1]));
                    let k = choose|k: int|
                        0 <= k < s.skip(1).len() && s.skip(1)[k] == rest[j - 1];
                    assert(s.skip(1)[k] == s[k + 1]);
                }
            } else {
                assert(out[i] == rest[i - 1] && out[j] == rest[j - 1]);
            }
        }
        assert forall|q: Pin| out.contains(q) implies s.contains(q) || q == p by {
            let i = choose|i: int| 0 <= i < out.len() && out[i] == q;
            if i == 0 {
                assert(s[0] == q);
            } else {
                assert(rest[i - 1] == q);
                assert(rest.contains(q));
                if q != p {
                    assert(s.skip(1).contains(q));
                    let k = choose|k: int| 0 <= k < s.skip(1).len() && s.skip(1)[k] == q;
                    assert(s.skip(1)[k] == s[k + 1]);
                }
            }
        }
    }
}

/// The canonical form of a group is ascending by number and holds only
/// pins of the group.
pub proof fn lemma_canon_pins(ps: Seq<Pin>)
    ensures
        nums_sorted(canon_pins(ps)),
        forall|q: Pin| canon_pins(ps).contains(q) ==> ps.contains(q),
    decreases ps.len(),
{
    if ps.len() != 0 {
        lemma_canon_pins(ps.drop_last());
        lemma_insert_pin(canon_pins(ps.drop_last()), ps.last());
        assert forall|q: Pin| canon_pins(ps).contains(q) implies ps.contains(q) by {
            if canon_pins(ps.drop_last()).contains(q) {
                assert(ps.drop_last().contains(q));
                let i = choose|i: int| 0 <= i < ps.drop_last().len() && ps.drop_last()[i] == q;
                assert(ps[i] == q);
            } else {
                assert(q == ps.last());
                assert(ps[ps.len() - 1] == q);
            }
        }
    }
}

/// Every pin of a group lies on the group's port, is not excluded by
/// name, and comes from `ps`.
pub proof fn lemma_port_group(ps: Seq<Pin>, id: char)
    ensures
        forall|i: int|
            0 <= i < port_group(ps, id).len() ==> (#[trigger] port_group(ps, id)[i]).port == Some(
                id,
            ) && !excluded_name(port_group(ps, id)[i].name@) && ps.contains(
                port_group(ps, id)[i],
            ),
    decreases ps.len(),
{
    if ps.len() != 0 {
        lemma_port_group(ps.drop_last(), id);
        let g = port_group(ps, id);
        let rest = port_group(ps.drop_last(), id);
        assert forall|i: int|
            0 <= i < g.len() implies (#[trigger] g[i]).port == Some(id) && !excluded_name(
            g[i].name@,
        ) && ps.contains(g[i]) by {
            if i < rest.len() {
                assert(g[i] == rest[i]);
                assert(ps.drop_last().contains(rest[i]));
                let k = choose|k: int|
                    0 <= k < ps.drop_last().len() && ps.drop_last()[k] == rest[i];
                assert(ps[k] == rest[i]);
            } else {
                assert(g[i] == ps.last());
                assert(ps[ps.len() - 1] == ps.last());
            }
        }
    }
}

/// Whether the letters of `s` are strictly ascending (so each occurs
/// once).
pub open spec fn ids_sorted(s: Seq<char>) -> bool {
    forall|i: int, j: int| 0 <= i < j < s.len() ==> (#[trigger] s[i]) < (#[trigger] s[j])
}

/// Inserting a letter keeps the list ascending, and its members are the
/// old members together with the letter.
pub proof fn lemma_insert_id(s: Seq<char>, c: char)
    requires
        ids_sorted(s),
    ensures
        ids_sorted(insert_id(s, c)),
        insert_id(s, c).contains(c),
        forall|x: char| insert_id(s, c).contains(x) <==> (s.contains(x) || x == c),
    decreases s.len(),
{
    let out = insert_id(s, c);
    if s.len() == 0 {
        assert(out =~= seq![c]);
        assert(out[0] == c);
        assert(out.contains(c));
        assert forall|x: char| out.contains(x) implies (s.contains(x) || x == c) by {
            let i = choose|i: int| 0 <= i < out.len() && out[i] == x;
            assert(i == 0);
        }
    } else if c < s[0] {
        assert(out[0] == c);
        assert(out.contains(c));
        assert forall|i: int, j: int| 0 <= i < j < out.len() implies out[i] < out[j] by {
            if i == 0 {
                assert(out[j] == s[j - 1]);
            } else {
                assert(out[i] == s[i - 1] && out[j] == s[j - 1]);
            }
        }
        assert forall|x: char| out.contains(x) implies (s.contains(x) || x == c) by {
            let i = choose|i: int| 0 <= i < out.len() && out[i] == x;
            if i > 0 {
                assert(s[i - 1] == x);
            }
        }
        assert forall|x: char| (s.contains(x) || x == c) implies out.contains(x) by {
            if x == c {
                assert(out[0] == x);
            } else {
                let i = choose|i: int| 0 <= i < s.len() && s[i] == x;
                assert(out[i + 1] == x);
            }
        }
    } else if c == s[0] {
        assert(out.contains(c)) by {
            assert(out[0] == c);
        }
    } else {
        assert(ids_sorted(s.skip(1))) by {
            assert(forall|i: int, j: int|
                0 <= i < j < s.skip(1).len() ==> (#[trigger] s.skip(1)[i]) == s[i + 1] && (
                #[trigger] s.skip(1)[j]) == s[j + 1]);
        }
        lemma_insert_id(s.skip(1), c);
        let rest = insert_id(s.skip(1), c);
        assert(rest.contains(c));
        let kc = choose|k: int| 0 <= k < rest.len() && rest[k] == c;
        assert(out[kc + 1] == c);
        assert(out.contains(c));
        assert forall|i: int, j: int| 0 <= i < j < out.len() implies out[i] < out[j] by {
            if i == 0 {
                assert(out[j] == rest[j - 1]);
                assert(rest.contains(rest[j - 1]));
                if rest[j - 1] == c {
                } else {
                    assert(s.skip(1).contains(rest[j - 1]));
                    let k = choose|k: int|
                        0 <= k < s.skip(1).len() && s.skip(1)[k] == rest[j - 1];
                    assert(s.skip(1)[k] == s[k + 1]);
                }
            } else {
                assert(out[i] == rest[i - 1] && out[j] == rest[j - 1]);
            }
        }
        assert forall|x: char| out.contains(x) implies (s.contains(x) || x == c) by {
            let i = choose|i: int| 0 <= i < out.len() && out[i] == x;
            if i == 0 {
                assert(s[0] == x);
            } else {
                assert(rest[i - 1] == x);
                assert(rest.contains(x));
                if x != c {
                    assert(s.skip(1).contains(x));
                    let k = choose|k: int| 0 <= k < s.skip(1).len() && s.skip(1)[k] == x;
                    assert(s.skip(1)[k] == s[k + 1]);
                }
            }
        }
        assert forall|x: char| (s.contains(x) || x == c) implies out.contains(x) by {
            if s.contains(x) {
                let i = choose|i: int| 0 <= i < s.len() && s[i] == x;
                if i == 0 {
                    assert(out[0] == x);
                } else {
                    assert(s.skip(1)[i - 1] == x);
                    assert(s.skip(1).contains(x));
                    assert(rest.contains(x));
                    let k = choose|k: int| 0 <= k < rest.len() && rest[k] == x;
                    assert(out[k + 1] == x);
                }
            } else {
                assert(x == c && out.contains(c));
            }
        }
    }
}

/// The port letters of a pin list are ascending, each occurring once, and
/// are exactly the letters its pins carry.
pub proof fn lemma_port_ids(ps: Seq<Pin>)
    ensures
        ids_sorted(port_ids(ps)),
        forall|x: char|
            port_ids(ps).contains(x) <==> exists|i: int|
                0 <= i < ps.len() && (#[trigger] ps[i]).port->0 == x,
    decreases ps.len(),
{
    if ps.len() != 0 {
        lemma_port_ids(ps.drop_last());
        lemma_insert_id(port_ids(ps.drop_last()), ps.last().port->0);
        assert forall|x: char|
            port_ids(ps).contains(x) implies exists|i: int|
            0 <= i < ps.len() && (#[trigger] ps[i]).port->0 == x by {
            if port_ids(ps.drop_last()).contains(x) {
                let i = choose|i: int|
                    0 <= i < ps.drop_last().len() && (#[trigger] ps.drop_last()[i]).port->0 == x;
                assert(ps[i].port->0 == x);
            } else {
                assert(x == ps.last().port->0);
                assert(ps[ps.len() - 1].port->0 == x);
            }
        }
        assert forall|x: char|
            (exists|i: int| 0 <= i < ps.len() && (#[trigger] ps[i]).port->0 == x) implies port_ids(
            ps,
        ).contains(x) by {
            let i = choose|i: int| 0 <= i < ps.len() && (#[trigger] ps[i]).port->0 == x;
            if i < ps.len() - 1 {
                assert(ps.drop_last()[i].port->0 == x);
                assert(exists|k: int|
                    0 <= k < ps.drop_last().len() && (#[trigger] ps.drop_last()[k]).port->0 == x);
                assert(port_ids(ps.drop_last()).contains(x));
            } else {
                assert(x == ps.last().port->0);
            }
        }
    }
}

/// Two ascending duplicate-free letter lists with the same members are
/// equal.
pub proof fn lemma_ids_sorted_same_members(a: Seq<char>, b: Seq<char>)
    requires
        ids_sorted(a),
        ids_sorted(b),
        forall|x: char| a.contains(x) <==> b.contains(x),
    ensures
        a == b,
    decreases a.len(),
{
    if a.len() == 0 {
        if b.len() != 0 {
            assert(b.contains(b[0]));
            assert(a.contains(b[0]));
        }
        assert(a =~= b);
    } else {
        assert(a.contains(a[0]));
        assert(b.contains(a[0]));
        let k = choose|k: int| 0 <= k < b.len() && b[k] == a[0];
        assert(b.contains(b[0]));
        assert(a.contains(b[0]));
        let m = choose|m: int| 0 <= m < a.len() && a[m] == b[0];
        assert(a[0] == b[0]) by {
            if m > 0 {
                assert(a[0] < a[m]);
            }
            if k > 0 {
                assert(b[0] < b[k]);
            }
        }
        assert(ids_sorted(a.skip(1))) by {
            assert(forall|i: int, j: int|
                0 <= i < j < a.skip(1).len() ==> (#[trigger] a.skip(1)[i]) == a[i + 1] && (
                #[trigger] a.skip(1)[j]) == a[j + 1]);
        }
        assert(ids_sorted(b.skip(1))) by {
            assert(forall|i: int, j: int|
                0 <= i < j < b.skip(1).len() ==> (#[trigger] b.skip(1)[i]) == b[i + 1] && (
                #[trigger] b.skip(1)[j]) == b[j + 1]);
        }
        assert forall|x: char| a.skip(1).contains(x) implies b.skip(1).contains(x) by {
            let i = choose|i: int| 0 <= i < a.skip(1).len() && a.skip(1)[i] == x;
            assert(a[i + 1] == x);
            assert(a[0] < a[i + 1]);
            assert(a.contains(x));
            assert(b.contains(x));
            let j = choose|j: int| 0 <= j < b.len() && b[j] == x;
            assert(j != 0);
            assert(b.skip(1)[j - 1] == x);
        }
        assert forall|x: char| b.skip(1).contains(x) implies a.skip(1).contains(x) by {
            let i = choose|i: int| 0 <= i < b.skip(1).len() && b.skip(1)[i] == x;
            assert(b[i + 1] == x);
            assert(b[0] < b[i + 1]);
            assert(b.contains(x));
            assert(a.contains(x));
            let j = choose|j: int| 0 <= j < a.len() && a[j] == x;
            assert(j != 0);
            assert(a.skip(1)[j - 1] == x);
        }
        lemma_ids_sorted_same_members(a.skip(1), b.skip(1));
        assert forall|i: int| 0 <= i < a.len() implies a[i] == b[i] by {
            if i > 0 {
                assert(a.skip(1)[i - 1] == b.skip(1)[i - 1]);
            }
        }
        assert(a =~= b);
    }
}

/// The pins of `ps` that are not excluded by name, in order.
pub open spec fn strip_excluded(ps: Seq<Pin>) -> Seq<Pin> {
    ps.filter(|p: Pin| !excluded_name(p.name@))
}

/// Removing the excluded pins changes no port's group: they never enter
/// one.
pub proof fn lemma_port_group_strip(ps: Seq<Pin>, id: char)
    ensures
        port_group(strip_excluded(ps), id) == port_group(ps, id),
    decreases ps.len(),
{
    reveal(Seq::filter);
    if ps.len() != 0 {
        lemma_port_group_strip(ps.drop_last(), id);
        if excluded_name(ps.last().name@) {
            assert(strip_excluded(ps) == strip_excluded(ps.drop_last()));
        } else {
            assert(strip_excluded(ps) == strip_excluded(ps.drop_last()).push(ps.last()));
            assert(strip_excluded(ps).drop_last() =~= strip_excluded(ps.drop_last()));
            assert(strip_excluded(ps).last() == ps.last());
        }
    }
}

/// Whether the pin's name is excluded from every port.
fn excluded(name: &String) -> (r: bool)
    ensures
        r == excluded_name(name@),
{
    str_eq_exec(name.as_str(), "PDR_ON") || str_eq_exec(name.as_str(), "PC14OSC32_IN")
        || str_eq_exec(name.as_str(), "PC15OSC32_OUT")
}

/// Inserts `c` into the ascending letter list `v`, dropping duplicates.
fn insert_id_sorted(v: &mut Vec<char>, c: char)
    ensures
        final(v)@ == insert_id(old(v)@, c),
{
    let ghost orig = v@;
    let mut i: usize = 0;
    proof {
        assert(orig.take(0) =~= Seq::empty());
        assert(orig.skip(0) =~= orig);
    }
    while i < v.len() && v[i] < c
        invariant
            i <= v.len(),
            orig == v@,
            insert_id(orig, c) == orig.take(i as int) + insert_id(orig.skip(i as int), c),
        decreases v.len() - i,
    {
        proof {
            let rest = orig.skip(i as int);
            assert(rest[0] == orig[i as int]);
            assert(insert_id(rest, c) == seq![rest[0]] + insert_id(rest.skip(1), c));
            assert(rest.skip(1) =~= orig.skip(i + 1));
            assert(orig.take(i as int) + (seq![rest[0]] + insert_id(orig.skip(i + 1), c))
                =~= orig.take(i + 1) + insert_id(orig.skip(i + 1), c));
        }
        i = i + 1;
    }
    if i == v.len() {
        proof {
            assert(orig.skip(i as int) =~= Seq::empty());
            assert(orig.take(i as int) =~= orig);
            assert(insert_id(orig, c) =~= orig.push(c));
        }
        v.push(c);
    } else if v[i] == c {
        proof {
            let rest = orig.skip(i as int);
            assert(rest[0] == orig[i as int]);
            assert(insert_id(rest, c) == rest);
            assert(orig.take(i as int) + orig.skip(i as int) =~= orig);
        }
    } else {
        proof {
            let rest = orig.skip(i as int);
            assert(rest[0] == orig[i as int]);
            assert(c < rest[0]);
            assert(insert_id(rest, c) == seq![c] + rest);
            assert(orig.take(i as int) + (seq![c] + orig.skip(i as int)) =~= orig.insert(
                i as int,
                c,
            ));
        }
        v.insert(i, c);
    }
}

/// Inserts the pin into the number-ascending list `v`, keeping the pin
/// already present on an equal number.
fn insert_pin_sorted<'a>(v: &mut Vec<&'a Pin>, x: &'a Pin)
    requires
        x.number is Some,
        forall|j: int| 0 <= j < old(v)@.len() ==> (#[trigger] old(v)@[j]).number is Some,
    ensures
        pins_view(final(v)@) == insert_pin(pins_view(old(v)@), *x),
        forall|j: int| 0 <= j < final(v)@.len() ==> (#[trigger] final(v)@[j]).number is Some,
{
    let ghost orig = pins_view(v@);
    let xn = x.number.unwrap();
    let mut i: usize = 0;
    proof {
        assert(orig.take(0) =~= Seq::empty());
        assert(orig.skip(0) =~= orig);
        assert(insert_pin(orig, *x) =~= orig.take(0) + insert_pin(orig.skip(0), *x));
    }
    while i < v.len() && v[i].number.unwrap() < xn
        invariant
            i <= v.len(),
            orig == pins_view(v@),
            orig.len() == v@.len(),
            x.number is Some,
            xn == x.number->0,
            forall|j: int| 0 <= j < v@.len() ==> (#[trigger] v@[j]).number is Some,
            insert_pin(orig, *x) == orig.take(i as int) + insert_pin(orig.skip(i as int), *x),
        decreases v.len() - i,
    {
        proof {
            let rest = orig.skip(i as int);
            assert(rest[0] == orig[i as int]);
            assert(orig[i as int] == *v@[i as int]);
            assert(rest[0].number->0 < x.number->0);
            assert(insert_pin(rest, *x) == seq![rest[0]] + insert_pin(rest.skip(1), *x));
            assert(rest.skip(1) =~= orig.skip(i + 1));
            assert(orig.take(i as int) + (seq![rest[0]] + insert_pin(orig.skip(i + 1), *x))
                =~= orig.take(i + 1) + insert_pin(orig.skip(i + 1), *x));
        }
        i = i + 1;
    }
    if i == v.len() {
        proof {
            assert(orig.skip(i as int) =~= Seq::empty());
            assert(orig.take(i as int) =~= orig);
            assert(insert_pin(orig, *x) =~= orig.push(*x));
        }
        v.push(x);
        assert(pins_view(v@) =~= orig.push(*x));
    } else if v[i].number.unwrap() == xn {
        proof {
            let rest = orig.skip(i as int);
            assert(rest[0] == orig[i as int]);
            assert(orig[i as int] == *v@[i as int]);
            assert(insert_pin(rest, *x) == rest);
            assert(orig.take(i as int) + orig.skip(i as int) =~= orig);
        }
    } else {
        proof {
            let rest = orig.skip(i as int);
            assert(rest[0] == orig[i as int]);
            assert(orig[i as int] == *v@[i as int]);
            assert(x.number->0 < rest[0].number->0);
            assert(insert_pin(rest, *x) == seq![*x] + rest);
            assert(orig.take(i as int) + (seq![*x] + orig.skip(i as int)) =~= orig.insert(
                i as int,
                *x,
            ));
        }
        v.insert(i, x);
        assert(pins_view(v@) =~= orig.insert(i as int, *x));
    }
}

/// The pins of `pins` on port `id`, excluded names dropped, ascending
/// by number, first of equal numbers kept.
fn collect_port_pins<'a>(pins: &'a [Pin], id: char) -> (r: Vec<&'a Pin>)
    requires
        pins_ok(pins@),
    ensures
        pins_view(r@) == canon_pins(port_group(pins@, id)),
{
    let n = pins.len();
    let mut group: Vec<&'a Pin> = Vec::new();
    let mut j: usize = 0;
    proof {
        assert(pins@.take(0) =~= Seq::empty());
        assert(pins_view(group@) =~= Seq::<Pin>::empty());
    }
    while j < n
        invariant
            j <= n,
            n == pins@.len(),
            pins_ok(pins@),
            pins_view(group@) == port_group(pins@.take(j as int), id),
            group@.len() == pins_view(group@).len(),
            forall|l: int| 0 <= l < group@.len() ==> (#[trigger] group@[l]).number is Some,
        decreases n - j,
    {
        proof {
            assert(pins@.take(j + 1).drop_last() =~= pins@.take(j as int));
            assert(pins@.take(j + 1).last() == pins@[j as int]);
            assert(pin_ok(pins@[j as int]));
        }
        let pin = &pins[j];
        let on_port = match pin.port {
            Some(c) => c == id,
            None => false,
        };
        if on_port && !excluded(&pin.name) {
            group.push(pin);
            assert(pins_view(group@) =~= port_group(pins@.take(j + 1), id));
        }
        j = j + 1;
    }
    proof {
        assert(pins@.take(n as int) =~= pins@);
    }

    let mut sorted: Vec<&'a Pin> = Vec::new();
    let mut l: usize = 0;
    proof {
        assert(pins_view(group@).take(0) =~= Seq::empty());
        assert(pins_view(sorted@) =~= Seq::<Pin>::empty());
    }
    while l < group.len()
        invariant
            l <= group@.len(),
            pins_view(group@) == port_group(pins@, id),
            group@.len() == pins_view(group@).len(),
            forall|m: int| 0 <= m < group@.len() ==> (#[trigger] group@[m]).number is Some,
            forall|m: int| 0 <= m < sorted@.len() ==> (#[trigger] sorted@[m]).number is Some,
            pins_view(sorted@) == canon_pins(pins_view(group@).take(l as int)),
        decreases group.len() - l,
    {
        proof {
            assert(pins_view(group@).take(l + 1).drop_last() =~= pins_view(group@).take(
                l as int,
            ));
            assert(pins_view(group@).take(l + 1).last() == pins_view(group@)[l as int]);
            assert(pins_view(group@)[l as int] == *group@[l as int]);
        }
        let pin = group[l];
        insert_pin_sorted(&mut sorted, pin);
        l = l + 1;
    }
    proof {
        assert(pins_view(group@).take(group@.len() as int) =~= pins_view(group@));
    }
    sorted
}

/// Whether the port at position `k` of the aggregation of `pins` is
/// correct: its letter is the `k`-th port letter, and its pins are the
/// canonical form of its group.
#[verifier::opaque]
pub open spec fn port_model_ok(pins: Seq<Pin>, p: Port, k: int) -> bool {
    p.id == port_ids(pins)[k] && pins_view(p.pins@) == canon_pins(
        port_group(pins, port_ids(pins)[k]),
    )
}

/// Builds one port from its letter and pins.
fn mk_port<'a>(id: char, pins: Vec<&'a Pin>) -> (r: Port<'a>)
    ensures
        r.id == id,
        r.pins == pins,
{
    Port { id, pins }
}

/// Builds one port per letter of `ids`, in order.
fn build_ports<'a>(pins: &'a [Pin], ids: Vec<char>) -> (r: Vec<Port<'a>>)
    requires
        pins_ok(pins@),
        ids@ == port_ids(pins@),
    ensures
        r@.len() == ids@.len(),
        forall|k: int| 0 <= k < r@.len() ==> port_model_ok(pins@, #[trigger] r@[k], k),
{
    let mut ports: Vec<Port<'a>> = Vec::new();
    let mut t: usize = 0;
    while t < ids.len()
        invariant
            pins_ok(pins@),
            ids@ == port_ids(pins@),
            t <= ids@.len(),
            ports@.len() == t,
            forall|k: int| 0 <= k < t ==> port_model_ok(pins@, #[trigger] ports@[k], k),
        decreases ids.len() - t,
    {
        let pid = ids[t];
        let sorted = collect_port_pins(pins, pid);
        let port = mk_port(pid, sorted);
        ports.push(port);
        proof {
            assert(port_model_ok(pins@, ports@[t as int], t as int)) by {
                reveal(port_model_ok);
            }
        }
        t = t + 1;
    }
    ports
}

/// Groups the pins by port letter, excludes the three non-GPIO names,
/// orders each port's pins ascending by number keeping the first of equal
/// numbers, and returns the ports ascending by letter. A pin whose port
/// or number cannot be derived aborts the aggregation with an error
/// naming the first such pin.
pub fn merge_pins_by_port<'a>(pins: &'a [Pin]) -> (r: Result<Vec<Port<'a>>, Error>)
    ensures
        match r {
            Ok(ports) => {
                &&& pins_ok(pins@)
                &&& ports@.len() == port_ids(pins@).len()
                &&& forall|k: int|
                    0 <= k < ports@.len() ==> (#[trigger] ports@[k]).id == port_ids(pins@)[k]
                        && pins_view(ports@[k].pins@) == canon_pins(
                        port_group(pins@, port_ids(pins@)[k]),
                    )
                &&& forall|k: int, j: int|
                    0 <= k < ports@.len() && 0 <= j < ports@[k].pins@.len()
                        ==> !excluded_name((#[trigger] pins_view(ports@[k].pins@)[j]).name@)
                        && pins_view(ports@[k].pins@)[j].port == Some(ports@[k].id)
                &&& forall|k: int| 0 <= k < ports@.len() ==> nums_sorted(
                        pins_view((#[trigger] ports@[k]).pins@),
                    )
            },
            Err(e) => {
                &&& !pins_ok(pins@)
                &&& exists|i: int|
                    0 <= i < pins@.len() && !pin_ok(#[trigger] pins@[i]) && (forall|j: int|
                        0 <= j < i ==> pin_ok(#[trigger] pins@[j])) && pin_error(e, pins@[i])
            },
        },
{
    let n = pins.len();
    let mut i: usize = 0;
    while i < n
        invariant
            i <= n,
            n == pins@.len(),
            forall|j: int| 0 <= j < i ==> pin_ok(#[trigger] pins@[j]),
        decreases n - i,
    {
        let pin = &pins[i];
        match pin.port() {
            Err(e) => {
                return Err(e);
            },
            Ok(_) => {},
        }
        match pin.number() {
            Err(e) => {
                return Err(e);
            },
            Ok(_) => {},
        }
        i = i + 1;
    }
    assert(pins_ok(pins@));

    let mut ids: Vec<char> = Vec::new();
    let mut i: usize = 0;
    proof {
        assert(pins@.take(0) =~= Seq::empty());
    }
    while i < n
        invariant
            i <= n,
            n == pins@.len(),
            pins_ok(pins@),
            ids@ == port_ids(pins@.take(i as int)),
        decreases n - i,
    {
        proof {
            assert(pins@.take(i + 1).drop_last() =~= pins@.take(i as int));
            assert(pins@.take(i + 1).last() == pins@[i as int]);
            assert(pin_ok(pins@[i as int]));
        }
        let c = pins[i].port.unwrap();
        insert_id_sorted(&mut ids, c);
        i = i + 1;
    }
    proof {
        assert(pins@.take(n as int) =~= pins@);
    }

    let ports = build_ports(pins, ids);
    proof {
        assert forall|k: int|
            0 <= k < ports@.len() implies (#[trigger] ports@[k]).id == port_ids(pins@)[k]
            && pins_view(ports@[k].pins@) == canon_pins(
            port_group(pins@, port_ids(pins@)[k]),
        ) by {
            reveal(port_model_ok);
            assert(port_model_ok(pins@, ports@[k], k));
        }
        assert forall|k: int, j: int|
            0 <= k < ports@.len() && 0 <= j < ports@[k].pins@.len() implies !excluded_name(
            (#[trigger] pins_view(ports@[k].pins@)[j]).name@,
        ) && pins_view(ports@[k].pins@)[j].port == Some(ports@[k].id) by {
            let id = port_ids(pins@)[k];
            let cp = canon_pins(port_group(pins@, id));
            lemma_canon_pins(port_group(pins@, id));
            lemma_port_group(pins@, id);
            assert(pins_view(ports@[k].pins@)[j] == cp[j]);
            assert(cp.contains(cp[j]));
            assert(canon_pins(port_group(pins@, id)).contains(cp[j]));
            assert(port_group(pins@, id).contains(cp[j]));
            let g = port_group(pins@, id);
            let m = choose|m: int| 0 <= m < g.len() && g[m] == cp[j];
            assert(g[m].port == Some(id) && !excluded_name(g[m].name@));
            assert(ports@[k].id == id);
        }
        assert forall|k: int| 0 <= k < ports@.len() implies nums_sorted(
            pins_view((#[trigger] ports@[k]).pins@),
        ) by {
            lemma_canon_pins(port_group(pins@, port_ids(pins@)[k]));
        }
    }
    Ok(ports)
}

} // verus!
