//! The generation pipeline: one IP block to its records, and the whole
//! IP list to the final emitted text.
//!
//! Per IP block, the version resolves to a feature tag, the pins are
//! aggregated into ports, and every port with a non-empty body yields one
//! record tagged with that feature. Across all IP blocks the records then
//! go through the two merge passes and are rendered, one blank line per
//! IP block leading the text.

use crate::feature::{feature_of, ip_version_to_feature, version_ok};
use crate::merge::{
    merge_by_body, merge_by_body_spec, merge_by_features, merge_by_features_spec, models,
};
use crate::ports::{
    canon_pins, ids_sorted, lemma_canon_pins, lemma_ids_sorted_same_members, lemma_port_group,
    lemma_port_group_strip, lemma_port_ids, merge_pins_by_port, pin_error, pin_ok, pins_ok,
    pins_view, port_group, port_ids, strip_excluded,
};
use crate::render::{gen_port, pins_names_ok, port_lines, render_macro, sig_names_ok,
    strings_view};
use crate::strutil::{join_with, lemma_join_push, push_char};
use crate::types::{Error, Ip, MacroModel, Pin, PortMacro};
use vstd::prelude::*;
use vstd::string::StrSliceExecFns;
use vstd::string::StringExecFns;

verus! {

/// The body text of one port: its lines, newline-joined.
pub open spec fn port_body(pins: Seq<Pin>, c: char) -> Seq<char> {
    join_with(port_lines(c, canon_pins(port_group(pins, c))), seq!['\n'])
}

/// The records of one IP block: one per port whose body is non-empty, in
/// port-letter order, each tagged with the block's one feature.
pub open spec fn ip_macros(feat: Seq<char>, pins: Seq<Pin>) -> Seq<MacroModel> {
    port_ids(pins).map_values(
        |c: char| MacroModel { features: seq![feat], body: port_body(pins, c) },
    ).filter(|m: MacroModel| m.body.len() > 0)
}

/// Whether the block's version matches the pattern and every pin is
/// derivable.
pub open spec fn ip_ok(ip: Ip) -> bool {
    version_ok(ip.version@) && pins_ok(ip.pins@)
}

/// Whether `e` is the error generation reports for the block `ip`: the
/// version when it does not match, else the first underivable pin.
pub open spec fn ip_error(e: Error, ip: Ip) -> bool {
    if !version_ok(ip.version@) {
        e matches Error::InvalidVersion(s) && s@ == ip.version@
    } else {
        exists|i: int|
            0 <= i < ip.pins@.len() && !pin_ok(#[trigger] ip.pins@[i]) && (forall|j: int|
                0 <= j < i ==> pin_ok(#[trigger] ip.pins@[j])) && pin_error(e, ip.pins@[i])
    }
}

/// Builds one record from its feature tags and body.
fn mk_macro(features: Vec<String>, string: String) -> (r: PortMacro)
    ensures
        r.features == features,
        r.string == string,
{
    PortMacro { features, string }
}

/// The records of one IP block: its version resolved to a feature tag,
/// its pins aggregated into ports, and one record per port with a
/// non-empty body. A version that does not match the pattern, or a pin
/// whose port or number cannot be derived, is a fatal error for the
/// block.
pub fn gen_gpio_ip(ip: &Ip) -> (r: Result<Vec<PortMacro>, Error>)
    requires
        pins_names_ok(ip.pins@),
    ensures
        match r {
            Ok(ms) => ip_ok(*ip) && models(ms@) == ip_macros(feature_of(ip.version@), ip.pins@),
            Err(e) => !ip_ok(*ip) && ip_error(e, *ip),
        },
{
    let feature = ip_version_to_feature(ip.version.as_str())?;
    let ports = match merge_pins_by_port(ip.pins.as_slice()) {
        Ok(ports) => ports,
        Err(e) => {
            return Err(e);
        },
    };
    let ghost pins = ip.pins@;
    let ghost ids = port_ids(pins);
    let ghost f = feature@;
    let ghost mapper = |c: char| MacroModel { features: seq![f], body: port_body(pins, c) };
    let ghost pred = |m: MacroModel| m.body.len() > 0;
    let mut macros: Vec<PortMacro> = Vec::new();
    let n = ports.len();
    proof {
        assert(ids.take(0).map_values(mapper) =~= Seq::<MacroModel>::empty());
        assert(models(macros@) =~= Seq::<MacroModel>::empty());
        reveal(Seq::filter);
        assert(Seq::<MacroModel>::empty().filter(pred) =~= Seq::<MacroModel>::empty());
    }
    let mut t: usize = 0;
    while t < n
        invariant
            t <= n,
            n == ports@.len(),
            n == ids.len(),
            pins == ip.pins@,
            ids == port_ids(pins),
            pins_ok(pins),
            pins_names_ok(pins),
            f == feature@,
            mapper == (|c: char| MacroModel { features: seq![f], body: port_body(pins, c) }),
            pred == (|m: MacroModel| m.body.len() > 0),
            forall|k: int|
                0 <= k < n ==> (#[trigger] ports@[k]).id == ids[k] && pins_view(ports@[k].pins@)
                    == canon_pins(port_group(pins, ids[k])),
            models(macros@) == ids.take(t as int).map_values(mapper).filter(pred),
        decreases n - t,
    {
        let port = &ports[t];
        let ghost g = port_group(pins, ids[t as int]);
        let ghost cp = canon_pins(g);
        proof {
            assert(pins_view(port.pins@) == cp);
            lemma_canon_pins(g);
            lemma_port_group(pins, ids[t as int]);
            assert forall|l: int|
                0 <= l < pins_view(port.pins@).len() implies sig_names_ok(
                (#[trigger] pins_view(port.pins@)[l]).pin_signals@,
            ) && pin_ok(pins_view(port.pins@)[l]) by {
                let q = pins_view(port.pins@)[l];
                assert(cp.contains(q));
                assert(g.contains(q));
                let k = choose|k: int| 0 <= k < g.len() && g[k] == q;
                assert(pins.contains(g[k]));
                let w = choose|w: int| 0 <= w < pins.len() && pins[w] == q;
                assert(sig_names_ok(pins[w].pin_signals@));
                assert(pin_ok(pins[w]));
            }
        }
        let lines = match gen_port(port) {
            Ok(lines) => lines,
            Err(e) => {
                proof {
                    let i = choose|i: int|
                        0 <= i < port.pins@.len() && !pin_ok(
                            #[trigger] pins_view(port.pins@)[i],
                        );
                    assert(false);
                }
                return Err(e);
            },
        };
        let mut body = String::new();
        let m = lines.len();
        let ghost lv = strings_view(lines@);
        proof {
            assert(lv == port_lines(ids[t as int], cp));
        }
        let mut k: usize = 0;
        while k < m
            invariant
                k <= m,
                m == lines@.len(),
                lv == strings_view(lines@),
                k == 0 ==> body@ == Seq::<char>::empty(),
                k >= 1 ==> body@ == join_with(lv.take(k as int), seq!['\n']),
            decreases m - k,
        {
            if k > 0 {
                push_char(&mut body, '\n');
            }
            body.append(lines[k].as_str());
            proof {
                assert(lv.take(k + 1) =~= lv.take(k as int).push(lv[k as int]));
                if k == 0 {
                    assert(join_with(lv.take(1), seq!['\n']) == lv[0]);
                    assert(body@ =~= join_with(lv.take(1), seq!['\n']));
                } else {
                    lemma_join_push(lv.take(k as int), seq!['\n'], lv[k as int]);
                    assert(body@ =~= join_with(lv.take(k + 1), seq!['\n']));
                }
            }
            k = k + 1;
        }
        proof {
            assert(lv.take(m as int) =~= lv);
            if m == 0 {
                assert(join_with(lv, seq!['\n']) =~= Seq::<char>::empty());
            }
            assert(body@ == port_body(pins, ids[t as int]));
        }
        let ghost acc = models(macros@);
        let ghost mx = mapper(ids[t as int]);
        if !body.as_str().is_empty() {
            let mut features: Vec<String> = Vec::new();
            features.push(feature.clone());
            proof {
                assert(features.deep_view() =~= seq![f]);
            }
            let record = mk_macro(features, body);
            macros.push(record);
            proof {
                assert(models(macros@) =~= acc.push(mx));
            }
        }
        proof {
            reveal(Seq::filter);
            let mpre = ids.take(t as int).map_values(mapper);
            assert(ids.take(t + 1).map_values(mapper) =~= mpre.push(mx));
            assert(mpre.push(mx).drop_last() =~= mpre);
            assert(mpre.push(mx).last() == mx);
            if mx.body.len() > 0 {
                assert(mpre.push(mx).filter(pred) =~= mpre.filter(pred).push(mx));
            } else {
                assert(mpre.push(mx).filter(pred) =~= mpre.filter(pred));
            }
            assert(models(macros@) =~= ids.take(t + 1).map_values(mapper).filter(pred));
        }
        t = t + 1;
    }
    proof {
        assert(ids.take(n as int) =~= ids);
        assert(models(macros@) == ip_macros(feature_of(ip.version@), ip.pins@));
    }
    Ok(macros)
}


/// Filtering a mapped list equals mapping the filtered list, when the
/// predicate on the images agrees with one on the sources.
proof fn lemma_filter_map_commute<A, B>(
    s: Seq<A>,
    f: spec_fn(A) -> B,
    pred: spec_fn(B) -> bool,
    p: spec_fn(A) -> bool,
)
    requires
        forall|a: A| #[trigger] p(a) == pred(f(a)),
    ensures
        s.map_values(f).filter(pred) == s.filter(p).map_values(f),
    decreases s.len(),
{
    reveal(Seq::filter);
    if s.len() == 0 {
        assert(s.map_values(f) =~= Seq::<B>::empty());
        assert(s.filter(p).map_values(f) =~= Seq::<B>::empty());
    } else {
        lemma_filter_map_commute(s.drop_last(), f, pred, p);
        let md = s.drop_last().map_values(f);
        assert(s.map_values(f).drop_last() =~= md);
        assert(s.map_values(f).last() == f(s.last()));
        assert(s.map_values(f) =~= md.push(f(s.last())));
        if p(s.last()) {
            assert(s.filter(p) == s.drop_last().filter(p).push(s.last()));
            assert(s.filter(p).map_values(f) =~= s.drop_last().filter(p).map_values(f).push(
                f(s.last()),
            ));
            assert(s.map_values(f).filter(pred) =~= s.filter(p).map_values(f));
        } else {
            assert(s.filter(p) == s.drop_last().filter(p));
            assert(s.map_values(f).filter(pred) =~= s.filter(p).map_values(f));
        }
    }
}

/// Two pointwise-equal predicates filter a list to the same result.
proof fn lemma_filter_ext<A>(s: Seq<A>, p1: spec_fn(A) -> bool, p2: spec_fn(A) -> bool)
    requires
        forall|a: A| #[trigger] p1(a) == p2(a),
    ensures
        s.filter(p1) == s.filter(p2),
    decreases s.len(),
{
    reveal(Seq::filter);
    if s.len() != 0 {
        lemma_filter_ext(s.drop_last(), p1, p2);
    }
}

/// A filtered list holds exactly the members of the original that satisfy
/// the predicate.
proof fn lemma_filter_members<A>(s: Seq<A>, p: spec_fn(A) -> bool)
    ensures
        forall|x: A| s.filter(p).contains(x) <==> s.contains(x) && p(x),
    decreases s.len(),
{
    reveal(Seq::filter);
    if s.len() != 0 {
        lemma_filter_members(s.drop_last(), p);
        let out = s.filter(p);
        let rest = s.drop_last().filter(p);
        assert forall|x: A| out.contains(x) implies s.contains(x) && p(x) by {
            let i = choose|i: int| 0 <= i < out.len() && out[i] == x;
            if p(s.last()) && i == out.len() - 1 {
                assert(x == s.last());
                assert(s[s.len() - 1] == x);
            } else {
                assert(rest[i] == x);
                assert(rest.contains(x));
                assert(s.drop_last().contains(x));
                let k = choose|k: int| 0 <= k < s.drop_last().len() && s.drop_last()[k] == x;
                assert(s[k] == x);
            }
        }
        assert forall|x: A| s.contains(x) && p(x) implies out.contains(x) by {
            let i = choose|i: int| 0 <= i < s.len() && s[i] == x;
            if i == s.len() - 1 {
                assert(out[out.len() - 1] == x);
            } else {
                assert(s.drop_last()[i] == x);
                assert(s.drop_last().contains(x));
                assert(rest.contains(x));
                let k = choose|k: int| 0 <= k < rest.len() && rest[k] == x;
                assert(out[k] == x);
            }
        }
    }
}

/// Filtering an ascending duplicate-free letter list keeps it so.
proof fn lemma_filter_ids_sorted(s: Seq<char>, p: spec_fn(char) -> bool)
    requires
        ids_sorted(s),
    ensures
        ids_sorted(s.filter(p)),
    decreases s.len(),
{
    reveal(Seq::filter);
    if s.len() != 0 {
        assert(ids_sorted(s.drop_last())) by {
            assert(forall|i: int|
                0 <= i < s.len() - 1 ==> s.drop_last()[i] == #[trigger] s[i]);
        }
        lemma_filter_ids_sorted(s.drop_last(), p);
        lemma_filter_members(s.drop_last(), p);
        let out = s.filter(p);
        let rest = s.drop_last().filter(p);
        assert forall|i: int, j: int| 0 <= i < j < out.len() implies out[i] < out[j] by {
            if p(s.last()) && j == out.len() - 1 {
                assert(out[i] == rest[i]);
                assert(rest.contains(rest[i]));
                assert(s.drop_last().contains(rest[i]));
                let k = choose|k: int| 0 <= k < s.drop_last().len() && s.drop_last()[k] == out[i];
                assert(s[k] < s[s.len() - 1]);
            } else {
                assert(out[i] == rest[i] && out[j] == rest[j]);
            }
        }
    }
}

/// A pin excluded by name contributes nothing to the generated records:
/// an IP block yields exactly the same records with and without its
/// excluded pins, whatever signals those pins carry. A port letter that
/// only excluded pins carry yields an empty body, which the record list
/// drops.
pub proof fn lemma_excluded_pins_contribute_nothing(feat: Seq<char>, pins: Seq<Pin>)
    ensures
        ip_macros(feat, strip_excluded(pins)) == ip_macros(feat, pins),
{
    let pins2 = strip_excluded(pins);
    let ids1 = port_ids(pins);
    let ids2 = port_ids(pins2);
    let map1 = |c: char| MacroModel { features: seq![feat], body: port_body(pins, c) };
    let map2 = |c: char| MacroModel { features: seq![feat], body: port_body(pins2, c) };
    let pred = |m: MacroModel| m.body.len() > 0;
    let p = |c: char| port_body(pins, c).len() > 0;
    let p2 = |c: char| port_body(pins2, c).len() > 0;
    assert forall|c: char| #[trigger] port_body(pins2, c) == port_body(pins, c) by {
        lemma_port_group_strip(pins, c);
    }
    assert(forall|c: char| #[trigger] p(c) == pred(map1(c)));
    assert(forall|c: char| #[trigger] p2(c) == pred(map2(c)));
    assert(forall|c: char| #[trigger] p2(c) == p(c));
    // both sides commute to a map over filtered letters
    lemma_filter_map_commute(ids1, map1, pred, p);
    lemma_filter_map_commute(ids2, map2, pred, p2);
    lemma_filter_ext(ids2, p2, p);
    assert(ip_macros(feat, pins) =~= ids1.map_values(map1).filter(pred));
    assert(ip_macros(feat, pins2) =~= ids2.map_values(map2).filter(pred));
    // the filtered letter lists are equal: ascending, duplicate-free, and
    // with the same members
    lemma_port_ids(pins);
    lemma_port_ids(pins2);
    lemma_filter_ids_sorted(ids1, p);
    lemma_filter_ids_sorted(ids2, p);
    lemma_filter_members(ids1, p);
    lemma_filter_members(ids2, p);
    lemma_filter_members(pins, |q: Pin| !crate::ports::excluded_name(q.name@));
    assert forall|x: char| ids1.filter(p).contains(x) implies ids2.filter(p).contains(x) by {
        assert(p(x));
        let g = port_group(pins, x);
        assert(port_lines(x, canon_pins(g)).len() > 0) by {
            if canon_pins(g).len() == 0 {
                assert(port_body(pins, x).len() == 0);
            }
        }
        assert(g.len() > 0) by {
            if g.len() == 0 {
                assert(canon_pins(g).len() == 0);
            }
        }
        lemma_port_group(pins, x);
        let q = g[0];
        assert(q.port == Some(x) && !crate::ports::excluded_name(q.name@) && pins.contains(q));
        assert(pins2.contains(q));
        let w = choose|w: int| 0 <= w < pins2.len() && pins2[w] == q;
        assert(pins2[w].port->0 == x);
        assert(exists|i: int| 0 <= i < pins2.len() && (#[trigger] pins2[i]).port->0 == x);
        assert(ids2.contains(x));
    }
    assert forall|x: char| ids2.filter(p).contains(x) implies ids1.filter(p).contains(x) by {
        assert(ids2.contains(x));
        let i = choose|i: int| 0 <= i < pins2.len() && (#[trigger] pins2[i]).port->0 == x;
        assert(pins2.contains(pins2[i]));
        assert(pins.contains(pins2[i]));
        assert(exists|k: int| 0 <= k < pins.len() && (#[trigger] pins[k]).port->0 == x);
        assert(ids1.contains(x));
    }
    lemma_ids_sorted_same_members(ids1.filter(p), ids2.filter(p));
    assert(ids1.filter(p).map_values(map1) =~= ids2.filter(p).map_values(map2));
    assert(ip_macros(feat, pins2) =~= ip_macros(feat, pins));
}

/// Whether every IP block of the list generates successfully.
pub open spec fn ips_ok(ips: Seq<Ip>) -> bool {
    forall|i: int| 0 <= i < ips.len() ==> ip_ok(#[trigger] ips[i])
}

/// The records of all IP blocks, in order, before merging.
pub open spec fn all_ip_macros(ips: Seq<Ip>) -> Seq<MacroModel>
    decreases ips.len(),
{
    if ips.len() == 0 {
        Seq::empty()
    } else {
        all_ip_macros(ips.drop_last()) + ip_macros(
            feature_of(ips.last().version@),
            ips.last().pins@,
        )
    }
}

/// The rendered blocks of the merged records, each followed by a
/// newline.
pub open spec fn render_all(ms: Seq<MacroModel>) -> Seq<char>
    decreases ms.len(),
{
    if ms.len() == 0 {
        Seq::empty()
    } else {
        render_all(ms.drop_last()) + render_macro(ms.last()) + seq!['\n']
    }
}

/// The full generated text: one blank line per IP block, then the merged
/// records of all blocks.
pub open spec fn output_text(ips: Seq<Ip>) -> Seq<char> {
    Seq::new(ips.len(), |i: int| '\n') + render_all(
        merge_by_features_spec(merge_by_body_spec(all_ip_macros(ips))),
    )
}


/// Whether `s` holds an underscore.
fn contains_underscore(s: &str) -> (r: bool)
    ensures
        r == crate::render::has_underscore(s@),
{
    let len = s.unicode_len();
    let mut k: usize = 0;
    while k < len
        invariant
            k <= len,
            len == s@.len(),
            forall|j: int| 0 <= j < k ==> s@[j] != '_',
        decreases len - k,
    {
        if s.get_char(k) == '_' {
            return true;
        }
        k = k + 1;
    }
    false
}

/// Whether every resolved signal of every pin of every block carries a
/// function name with an underscore: the condition under which generation
/// accepts the list. An external reader's metadata should be held to this
/// before generation; the run cannot recover from a malformed name.
pub fn af_names_ok(gpio_ips: &[Ip]) -> (r: bool)
    ensures
        r == forall|i: int|
            0 <= i < gpio_ips@.len() ==> pins_names_ok((#[trigger] gpio_ips@[i]).pins@),
{
    let n = gpio_ips.len();
    let mut i: usize = 0;
    while i < n
        invariant
            i <= n,
            n == gpio_ips@.len(),
            forall|k: int| 0 <= k < i ==> pins_names_ok((#[trigger] gpio_ips@[k]).pins@),
        decreases n - i,
    {
        let pins = &gpio_ips[i].pins;
        let pn = pins.len();
        let mut j: usize = 0;
        while j < pn
            invariant
                j <= pn,
                pn == pins@.len(),
                pins@ == gpio_ips@[i as int].pins@,
                0 <= i < gpio_ips@.len(),
                forall|k: int| 0 <= k < j ==> sig_names_ok((#[trigger] pins@[k]).pin_signals@),
            decreases pn - j,
        {
            let sigs = &pins[j].pin_signals;
            let sn = sigs.len();
            let mut t: usize = 0;
            while t < sn
                invariant
                    t <= sn,
                    sn == sigs@.len(),
                    sigs@ == pins@[j as int].pin_signals@,
                    0 <= j < pins@.len(),
                    0 <= i < gpio_ips@.len(),
                    pins@ == gpio_ips@[i as int].pins@,
                    forall|k: int|
                        0 <= k < t ==> match (#[trigger] sigs@[k]).af {
                            Some(p) => crate::render::has_underscore(p.1@),
                            None => true,
                        },
                decreases sn - t,
            {
                match &sigs[t].af {
                    Some(p) => {
                        if !contains_underscore(p.1.as_str()) {
                            proof {
                                let bad = sigs@[t as int];
                                assert(bad.af is Some && !crate::render::has_underscore(
                                    (bad.af->0).1@,
                                ));
                                assert(!sig_names_ok(pins@[j as int].pin_signals@));
                                assert(!pins_names_ok(gpio_ips@[i as int].pins@));
                            }
                            return false;
                        }
                    },
                    None => {},
                }
                t = t + 1;
            }
            proof {
                assert(sig_names_ok(pins@[j as int].pin_signals@));
            }
            j = j + 1;
        }
        proof {
            assert(pins_names_ok(gpio_ips@[i as int].pins@));
        }
        i = i + 1;
    }
    true
}

/// Generates the full mapping text for a list of GPIO IP blocks: each
/// block's records, merged across blocks first by identical body then by
/// identical feature-tag list, rendered in order. The first block that
/// fails aborts the run with its error, and nothing is emitted.
pub fn gen_mappings(gpio_ips: &[Ip]) -> (r: Result<String, Error>)
    requires
        forall|i: int| 0 <= i < gpio_ips@.len() ==> pins_names_ok((#[trigger] gpio_ips@[i]).pins@),
    ensures
        match r {
            Ok(text) => ips_ok(gpio_ips@) && text@ == output_text(gpio_ips@),
            Err(e) => {
                &&& !ips_ok(gpio_ips@)
                &&& exists|i: int|
                    0 <= i < gpio_ips@.len() && !ip_ok(#[trigger] gpio_ips@[i]) && (forall|j: int|
                        0 <= j < i ==> ip_ok(#[trigger] gpio_ips@[j])) && ip_error(
                        e,
                        gpio_ips@[i],
                    )
            },
        },
{
    let ghost ips = gpio_ips@;
    let mut all_macros: Vec<PortMacro> = Vec::new();
    let mut header = String::new();
    let n = gpio_ips.len();
    proof {
        assert(ips.take(0) =~= Seq::empty());
        assert(models(all_macros@) =~= Seq::<MacroModel>::empty());
        assert(header@ =~= Seq::new(0, |i: int| '\n'));
    }
    let mut i: usize = 0;
    while i < n
        invariant
            i <= n,
            n == ips.len(),
            ips == gpio_ips@,
            forall|k: int| 0 <= k < n ==> pins_names_ok((#[trigger] ips[k]).pins@),
            forall|k: int| 0 <= k < i ==> ip_ok(#[trigger] ips[k]),
            models(all_macros@) == all_ip_macros(ips.take(i as int)),
            header@ == Seq::new(i as nat, |x: int| '\n'),
        decreases n - i,
    {
        push_char(&mut header, '\n');
        proof {
            assert(header@ =~= Seq::new((i + 1) as nat, |x: int| '\n'));
        }
        match gen_gpio_ip(&gpio_ips[i]) {
            Ok(mut ms) => {
                proof {
                    assert(ips.take(i + 1).drop_last() =~= ips.take(i as int));
                    assert(ips.take(i + 1).last() == ips[i as int]);
                }
                all_macros.append(&mut ms);
                proof {
                    assert(models(all_macros@) =~= all_ip_macros(ips.take(i + 1)));
                }
            },
            Err(e) => {
                return Err(e);
            },
        }
        i = i + 1;
    }
    proof {
        assert(ips.take(n as int) =~= ips);
    }
    let merged = merge_by_features(merge_by_body(all_macros));
    let ghost ms = models(merged@);
    let m = merged.len();
    proof {
        assert(ms.take(0) =~= Seq::empty());
        assert(render_all(ms.take(0)) =~= Seq::<char>::empty());
    }
    let mut t: usize = 0;
    while t < m
        invariant
            t <= m,
            m == merged@.len(),
            ms == models(merged@),
            header@ == Seq::new(n as nat, |x: int| '\n') + render_all(ms.take(t as int)),
            n == ips.len(),
            ips == gpio_ips@,
            ms == merge_by_features_spec(merge_by_body_spec(all_ip_macros(ips))),
        decreases m - t,
    {
        let block = merged[t].render();
        header.append(block.as_str());
        push_char(&mut header, '\n');
        proof {
            assert(ms.take(t + 1).drop_last() =~= ms.take(t as int));
            assert(ms.take(t + 1).last() == ms[t as int]);
            assert(ms[t as int] == merged@[t as int]@);
            assert(header@ =~= Seq::new(n as nat, |x: int| '\n') + render_all(ms.take(t + 1)));
        }
        t = t + 1;
    }
    proof {
        assert(ms.take(m as int) =~= ms);
        assert(header@ == output_text(ips));
    }
    Ok(header)
}

} // verus!
