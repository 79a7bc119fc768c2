//! Rendering of pins into the generated text lines, and of a merged
//! record into its final emitted block.
//!
//! Each alternate-function pair of a pin becomes one line
//! `    <signal><<peripheral>>, P<PORT><number>, <af>;`, splitting the
//! function name on its first underscore. A missing underscore is
//! malformed metadata; callers must rule it out, as the run cannot
//! recover from it.

use crate::afn::{get_pin_af_numbers, get_pin_reset_mode, pairs_view, sig_pairs, sorted_unique};
use crate::ports::{pins_view, Port};
use crate::strutil::{dec_digits, join_with, lemma_join_push, push_char, push_dec_u32};
use crate::types::{Error, Pin, PortMacro, Signal};
use vstd::prelude::*;
use vstd::string::StrSliceExecFns;
use vstd::string::StringExecFns;

verus! {

/// The views of a list of strings.
pub open spec fn strings_view(s: Seq<String>) -> Seq<Seq<char>> {
    s.map_values(|x: String| x@)
}

/// Whether `s` holds an underscore.
pub open spec fn has_underscore(s: Seq<char>) -> bool {
    exists|i: int| 0 <= i < s.len() && s[i] == '_'
}

/// The position of the first underscore of `s`; meaningful when one
/// exists.
pub open spec fn split_pos(s: Seq<char>) -> int
    decreases s.len(),
{
    if s.len() == 0 {
        0
    } else if s[0] == '_' {
        0
    } else {
        1 + split_pos(s.skip(1))
    }
}

/// Whether every signal of the list that resolves to an alternate
/// function carries a function name with an underscore.
pub open spec fn sig_names_ok(sigs: Seq<Signal>) -> bool {
    forall|i: int|
        0 <= i < sigs.len() ==> match (#[trigger] sigs[i]).af {
            Some(p) => has_underscore(p.1@),
            None => true,
        }
}

/// Whether every pin of `ps` has well-formed function names.
pub open spec fn pins_names_ok(ps: Seq<Pin>) -> bool {
    forall|i: int| 0 <= i < ps.len() ==> sig_names_ok((#[trigger] ps[i]).pin_signals@)
}

/// The generated line of one alternate-function pair on pin
/// `P<port><nr>`.
pub open spec fn af_line(port: char, nr: u32, p: (u8, Seq<char>)) -> Seq<char> {
    let pos = split_pos(p.1);
    let per = p.1.subrange(0, pos);
    let pn = p.1.subrange(pos + 1, p.1.len() as int);
    "    "@ + pn + "<"@ + per + ">, P"@ + seq![port] + dec_digits(nr as int) + ", "@ + dec_digits(
        p.0 as int,
    ) + ";"@
}

/// The lines of one pin: one per sorted alternate-function pair.
pub open spec fn pin_lines(port: char, nr: u32, pairs: Seq<(u8, Seq<char>)>) -> Seq<Seq<char>> {
    pairs.map_values(|p: (u8, Seq<char>)| af_line(port, nr, p))
}

/// The lines of a port: the lines of its pins, in pin order.
pub open spec fn port_lines(id: char, ps: Seq<Pin>) -> Seq<Seq<char>>
    decreases ps.len(),
{
    if ps.len() == 0 {
        Seq::empty()
    } else {
        port_lines(id, ps.drop_last()) + pin_lines(
            id,
            ps.last().number->0,
            sorted_unique(sig_pairs(ps.last().pin_signals@)),
        )
    }
}

/// Every pair a pin's signals resolve to carries an underscore, when the
/// signal list is well formed.
pub proof fn lemma_sig_pairs_names(sigs: Seq<Signal>)
    requires
        sig_names_ok(sigs),
    ensures
        forall|q: (u8, Seq<char>)| sig_pairs(sigs).contains(q) ==> has_underscore(q.1),
    decreases sigs.len(),
{
    if sigs.len() != 0 {
        assert(sig_names_ok(sigs.drop_last())) by {
            assert(forall|i: int|
                0 <= i < sigs.len() - 1 ==> sigs.drop_last()[i] == #[trigger] sigs[i]);
        }
        lemma_sig_pairs_names(sigs.drop_last());
        assert forall|q: (u8, Seq<char>)|
            sig_pairs(sigs).contains(q) implies has_underscore(q.1) by {
            let s = sig_pairs(sigs);
            let rest = sig_pairs(sigs.drop_last());
            let i = choose|i: int| 0 <= i < s.len() && s[i] == q;
            match sigs.last().af {
                Some(p) => {
                    if i < rest.len() {
                        assert(rest[i] == q);
                        assert(rest.contains(q));
                    } else {
                        assert(q == (p.0, p.1@));
                        assert(sigs[sigs.len() - 1] == sigs.last());
                    }
                },
                None => {
                    assert(rest[i] == q);
                    assert(rest.contains(q));
                },
            }
        }
    }
}

/// The index of the first underscore of `s`.
fn find_underscore(s: &str) -> (r: usize)
    requires
        has_underscore(s@),
    ensures
        r == split_pos(s@),
        0 <= r < s@.len(),
        s@[r as int] == '_',
{
    let len = s.unicode_len();
    let mut k: usize = 0;
    proof {
        assert(s@.skip(0) =~= s@);
    }
    while k < len
        invariant
            k <= len,
            len == s@.len(),
            has_underscore(s@),
            forall|j: int| 0 <= j < k ==> s@[j] != '_',
            split_pos(s@) == k + split_pos(s@.skip(k as int)),
        decreases len - k,
    {
        let c = s.get_char(k);
        if c == '_' {
            proof {
                assert(s@.skip(k as int)[0] == '_');
                assert(split_pos(s@.skip(k as int)) == 0);
            }
            return k;
        }
        proof {
            assert(s@.skip(k as int)[0] == s@[k as int]);
            assert(s@.skip(k as int).skip(1) =~= s@.skip(k + 1));
        }
        k = k + 1;
    }
    proof {
        let w = choose|i: int| 0 <= i < s@.len() && s@[i] == '_';
        assert(false);
    }
    0
}

/// The generated lines of one pin together with its reset-mode override.
/// One line is rendered per sorted alternate-function pair; the override
/// is returned for the caller to decide on, as the lines do not carry it.
pub fn gen_pin(port_upper: char, port_lower: char, pin: &Pin) -> (r: Result<
    (Vec<String>, Option<&'static str>),
    Error,
>)
    requires
        sig_names_ok(pin.pin_signals@),
    ensures
        match r {
            Ok(out) => {
                &&& pin.port is Some
                &&& pin.number is Some
                &&& strings_view(out.0@) == pin_lines(
                    port_upper,
                    pin.number->0,
                    sorted_unique(sig_pairs(pin.pin_signals@)),
                )
                &&& match out.1 {
                    Some(s) => crate::afn::debug_pin(pin.port->0, pin.number->0) && s@
                        == "super::Debugger"@,
                    None => !crate::afn::debug_pin(pin.port->0, pin.number->0),
                }
            },
            Err(e) => match e {
                Error::UnknownNumber(n) => pin.number is None && n@ == pin.name@,
                Error::UnknownPort(n) => pin.number is Some && pin.port is None && n@
                    == pin.name@,
                _ => false,
            },
        },
{
    let nr = pin.number()?;
    let reset_mode = get_pin_reset_mode(pin)?;
    let af_numbers = match get_pin_af_numbers(pin) {
        Ok(v) => v,
        Err(e) => {
            return Err(e);
        },
    };
    let ghost pairs = sorted_unique(sig_pairs(pin.pin_signals@));
    proof {
        lemma_sig_pairs_names(pin.pin_signals@);
    }
    let mut strings: Vec<String> = Vec::new();
    let n = af_numbers.len();
    proof {
        assert(strings_view(strings@) =~= Seq::<Seq<char>>::empty());
        assert(pairs.take(0) =~= Seq::empty());
        assert(pin_lines(port_upper, nr, pairs.take(0)) =~= Seq::<Seq<char>>::empty());
    }
    let mut t: usize = 0;
    while t < n
        invariant
            t <= n,
            n == af_numbers@.len(),
            pairs == pairs_view(af_numbers@),
            pairs == sorted_unique(sig_pairs(pin.pin_signals@)),
            forall|q: (u8, Seq<char>)| pairs.contains(q) ==> has_underscore(q.1),
            pin.number == Some(nr),
            strings_view(strings@) == pin_lines(port_upper, nr, pairs.take(t as int)),
        decreases n - t,
    {
        let func: &String = &af_numbers[t].1;
        let af: u8 = af_numbers[t].0;
        proof {
            assert(pairs[t as int] == (af_numbers@[t as int].0, af_numbers@[t as int].1@));
            assert(pairs.contains(pairs[t as int]));
        }
        let pos = find_underscore(func.as_str());
        let flen = func.as_str().unicode_len();
        let per = func.as_str().substring_char(0, pos);
        let pn = func.as_str().substring_char(pos + 1, flen);
        let mut line = String::from_str("    ");
        line.append(pn);
        line.append("<");
        line.append(per);
        line.append(">, P");
        push_char(&mut line, port_upper);
        push_dec_u32(&mut line, nr);
        line.append(", ");
        push_dec_u32(&mut line, af as u32);
        line.append(";");
        proof {
            assert(line@ =~= af_line(port_upper, nr, pairs[t as int]));
        }
        strings.push(line);
        proof {
            assert(pairs.take(t + 1) =~= pairs.take(t as int).push(pairs[t as int]));
            assert(pin_lines(port_upper, nr, pairs.take(t + 1)) =~= pin_lines(
                port_upper,
                nr,
                pairs.take(t as int),
            ).push(af_line(port_upper, nr, pairs[t as int])));
            assert(strings_view(strings@) =~= pin_lines(port_upper, nr, pairs.take(t + 1)));
        }
        t = t + 1;
    }
    proof {
        assert(pairs.take(n as int) =~= pairs);
    }
    Ok((strings, reset_mode))
}

/// The generated lines of one port: the lines of its pins in order. A pin
/// whose number or port cannot be derived is a fatal error naming it.
pub fn gen_port<'a>(port: &Port<'a>) -> (r: Result<Vec<String>, Error>)
    requires
        pins_names_ok(pins_view(port.pins@)),
    ensures
        match r {
            Ok(lines) => {
                &&& crate::ports::pins_ok(pins_view(port.pins@))
                &&& strings_view(lines@) == port_lines(port.id, pins_view(port.pins@))
            },
            Err(e) => exists|i: int|
                0 <= i < port.pins@.len() && !crate::ports::pin_ok(
                    #[trigger] pins_view(port.pins@)[i],
                ) && (forall|j: int|
                    0 <= j < i ==> crate::ports::pin_ok(#[trigger] pins_view(port.pins@)[j])) && {
                    let p = pins_view(port.pins@)[i];
                    match e {
                        Error::UnknownNumber(n) => p.number is None && n@ == p.name@,
                        Error::UnknownPort(n) => p.number is Some && p.port is None && n@
                            == p.name@,
                        _ => false,
                    }
                },
        },
{
    let port_upper = port.id;
    let port_lower = crate::strutil::to_lower(port.id);
    let ghost ps = pins_view(port.pins@);
    let mut strings: Vec<String> = Vec::new();
    let n = port.pins.len();
    proof {
        assert(ps.take(0) =~= Seq::empty());
        assert(strings_view(strings@) =~= Seq::<Seq<char>>::empty());
    }
    let mut t: usize = 0;
    while t < n
        invariant
            t <= n,
            n == port.pins@.len(),
            ps == pins_view(port.pins@),
            pins_names_ok(ps),
            port_upper == port.id,
            forall|j: int| 0 <= j < t ==> crate::ports::pin_ok(#[trigger] ps[j]),
            strings_view(strings@) == port_lines(port.id, ps.take(t as int)),
        decreases n - t,
    {
        let pin: &Pin = port.pins[t];
        proof {
            assert(ps[t as int] == *port.pins@[t as int]);
        }
        match gen_pin(port_upper, port_lower, pin) {
            Ok(out) => {
                let mut lines = out.0;
                proof {
                    assert(ps.take(t + 1).drop_last() =~= ps.take(t as int));
                    assert(ps.take(t + 1).last() == ps[t as int]);
                }
                strings.append(&mut lines);
                proof {
                    assert(strings_view(strings@) =~= port_lines(port.id, ps.take(t + 1)));
                }
            },
            Err(e) => {
                return Err(e);
            },
        }
        t = t + 1;
    }
    proof {
        assert(ps.take(n as int) =~= ps);
    }
    Ok(strings)
}

/// The conditional-compilation directive of a record's feature tags: a
/// single-feature `cfg` for one tag, a disjunctive `cfg(any(..))`
/// otherwise.
pub open spec fn feature_directive(features: Seq<Seq<char>>) -> Seq<char> {
    if features.len() == 1 {
        "#[cfg(feature = \""@ + features[0] + "\")]\n"@
    } else {
        "#[cfg(any(\n    "@ + join_with(
            features.map_values(|f: Seq<char>| "feature = \""@ + f + "\""@),
            ",\n    "@,
        ) + "\n))]\n"@
    }
}

/// The full emitted block of one merged record.
pub open spec fn render_macro(m: crate::types::MacroModel) -> Seq<char> {
    feature_directive(m.features) + "channel_impl! {\n"@ + m.body + "\n}\n"@
}

impl PortMacro {
    /// Renders this record: its feature directive, then the body wrapped
    /// in the fixed `channel_impl!` block.
    pub fn render(&self) -> (r: String)
        ensures
            r@ == render_macro(self@),
    {
        let ghost fs = self.features.deep_view();
        let mut s: String;
        if self.features.len() == 1 {
            s = String::from_str("#[cfg(feature = \"");
            s.append(self.features[0].as_str());
            s.append("\")]\n");
            proof {
                assert(s@ =~= feature_directive(fs));
            }
        } else {
            s = String::from_str("#[cfg(any(\n    ");
            let ghost mapped = fs.map_values(|f: Seq<char>| "feature = \""@ + f + "\""@);
            let n = self.features.len();
            proof {
                assert(fs.take(0).map_values(|f: Seq<char>| "feature = \""@ + f + "\""@)
                    =~= Seq::<Seq<char>>::empty());
            }
            let mut t: usize = 0;
            while t < n
                invariant
                    t <= n,
                    n == self.features@.len(),
                    fs == self.features.deep_view(),
                    mapped == fs.map_values(|f: Seq<char>| "feature = \""@ + f + "\""@),
                    s@ == "#[cfg(any(\n    "@ + join_with(mapped.take(t as int), ",\n    "@),
                decreases n - t,
            {
                if t > 0 {
                    s.append(",\n    ");
                }
                s.append("feature = \"");
                s.append(self.features[t].as_str());
                s.append("\"");
                proof {
                    assert(self.features@[t as int]@ == fs[t as int]);
                    assert(mapped[t as int] == "feature = \""@ + fs[t as int] + "\""@);
                    assert(mapped.take(t + 1) =~= mapped.take(t as int).push(mapped[t as int]));
                    if t > 0 {
                        lemma_join_push(mapped.take(t as int), ",\n    "@, mapped[t as int]);
                        assert(s@ =~= "#[cfg(any(\n    "@ + join_with(
                            mapped.take(t + 1),
                            ",\n    "@,
                        ));
                    } else {
                        assert(join_with(mapped.take(1), ",\n    "@) == mapped[0]);
                        assert(s@ =~= "#[cfg(any(\n    "@ + join_with(
                            mapped.take(1),
                            ",\n    "@,
                        ));
                    }
                }
                t = t + 1;
            }
            s.append("\n))]\n");
            proof {
                assert(mapped.take(n as int) =~= mapped);
                assert(s@ =~= feature_directive(fs));
            }
        }
        s.append("channel_impl! {\n");
        s.append(self.string.as_str());
        s.append("\n}\n");
        proof {
            assert(s@ =~= render_macro(self@));
        }
        s
    }
}

} // verus!
