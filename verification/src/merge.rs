//! The two merge passes over the generated records.
//!
//! Pass one scans in order and, for a record whose body text equals an
//! earlier record's, appends its feature tags onto that record instead of
//! keeping it. Pass two scans the result and, for a record whose
//! feature-tag list equals an earlier record's (order-sensitive), appends
//! its body, newline-separated, onto that record.

use crate::strutil::str_eq_exec;
use crate::types::{MacroModel, PortMacro};
use vstd::prelude::*;

verus! {

/// The models of a list of records.
pub open spec fn models(s: Seq<PortMacro>) -> Seq<MacroModel> {
    s.map_values(|m: PortMacro| m@)
}

/// The index of the first record of `acc` with body `b`, or `-1`.
pub open spec fn find_body(acc: Seq<MacroModel>, b: Seq<char>) -> int
    decreases acc.len(),
{
    if acc.len() == 0 {
        -1
    } else if acc[0].body == b {
        0
    } else {
        let r = find_body(acc.skip(1), b);
        if r == -1 {
            -1
        } else {
            1 + r
        }
    }
}

/// What [`find_body`] returns: the first index carrying the body, or `-1`
/// when no record carries it.
pub proof fn lemma_find_body(acc: Seq<MacroModel>, b: Seq<char>)
    ensures
        find_body(acc, b) == -1 ==> forall|j: int| 0 <= j < acc.len() ==> (#[trigger] acc[j]).body
            != b,
        find_body(acc, b) != -1 ==> 0 <= find_body(acc, b) < acc.len() && acc[find_body(
            acc,
            b,
        )].body == b && forall|j: int| 0 <= j < find_body(acc, b) ==> (#[trigger] acc[j]).body
            != b,
    decreases acc.len(),
{
    if acc.len() != 0 && acc[0].body != b {
        lemma_find_body(acc.skip(1), b);
        let r = find_body(acc.skip(1), b);
        assert forall|j: int| 0 <= j < acc.len() && find_body(acc, b) == -1 implies (
        #[trigger] acc[j]).body != b by {
            if j > 0 {
                assert(acc.skip(1)[j - 1] == acc[j]);
            }
        }
        if r != -1 {
            assert forall|j: int| 0 <= j < find_body(acc, b) implies (#[trigger] acc[j]).body
                != b by {
                if j > 0 {
                    assert(acc.skip(1)[j - 1] == acc[j]);
                }
            }
            assert(acc[1 + r] == acc.skip(1)[r]);
        }
    }
}

/// One step of pass one: `m` merged into the records seen so far.
pub open spec fn merge_body_step(acc: Seq<MacroModel>, m: MacroModel) -> Seq<MacroModel> {
    let i = find_body(acc, m.body);
    if i == -1 {
        acc.push(m)
    } else {
        acc.update(i, MacroModel { features: acc[i].features + m.features, body: acc[i].body })
    }
}

/// Pass one over a record list: later records with the body of an earlier
/// one give it their feature tags.
pub open spec fn merge_by_body_spec(ms: Seq<MacroModel>) -> Seq<MacroModel>
    decreases ms.len(),
{
    if ms.len() == 0 {
        Seq::empty()
    } else {
        merge_body_step(merge_by_body_spec(ms.drop_last()), ms.last())
    }
}

/// The index of the first record of `acc` with feature list `fs`, or
/// `-1`.
pub open spec fn find_features(acc: Seq<MacroModel>, fs: Seq<Seq<char>>) -> int
    decreases acc.len(),
{
    if acc.len() == 0 {
        -1
    } else if acc[0].features == fs {
        0
    } else {
        let r = find_features(acc.skip(1), fs);
        if r == -1 {
            -1
        } else {
            1 + r
        }
    }
}

/// What [`find_features`] returns: the first index carrying the feature
/// list, or `-1` when no record carries it.
pub proof fn lemma_find_features(acc: Seq<MacroModel>, fs: Seq<Seq<char>>)
    ensures
        find_features(acc, fs) == -1 ==> forall|j: int|
            0 <= j < acc.len() ==> (#[trigger] acc[j]).features != fs,
        find_features(acc, fs) != -1 ==> 0 <= find_features(acc, fs) < acc.len() && acc[
            find_features(acc, fs)].features == fs && forall|j: int|
            0 <= j < find_features(acc, fs) ==> (#[trigger] acc[j]).features != fs,
    decreases acc.len(),
{
    if acc.len() != 0 && acc[0].features != fs {
        lemma_find_features(acc.skip(1), fs);
        let r = find_features(acc.skip(1), fs);
        assert forall|j: int| 0 <= j < acc.len() && find_features(acc, fs) == -1 implies (
        #[trigger] acc[j]).features != fs by {
            if j > 0 {
                assert(acc.skip(1)[j - 1] == acc[j]);
            }
        }
        if r != -1 {
            assert forall|j: int|
                0 <= j < find_features(acc, fs) implies (#[trigger] acc[j]).features != fs by {
                if j > 0 {
                    assert(acc.skip(1)[j - 1] == acc[j]);
                }
            }
            assert(acc[1 + r] == acc.skip(1)[r]);
        }
    }
}

/// One step of pass two: `m` merged into the records seen so far.
pub open spec fn merge_features_step(acc: Seq<MacroModel>, m: MacroModel) -> Seq<MacroModel> {
    let i = find_features(acc, m.features);
    if i == -1 {
        acc.push(m)
    } else {
        acc.update(
            i,
            MacroModel { features: acc[i].features, body: acc[i].body + seq!['\n'] + m.body },
        )
    }
}

/// Pass two over a record list: later records with the feature list of an
/// earlier one give it their body, newline-joined.
pub open spec fn merge_by_features_spec(ms: Seq<MacroModel>) -> Seq<MacroModel>
    decreases ms.len(),
{
    if ms.len() == 0 {
        Seq::empty()
    } else {
        merge_features_step(merge_by_features_spec(ms.drop_last()), ms.last())
    }
}

/// Whether the bodies of `ms` are pairwise distinct.
pub open spec fn bodies_distinct(ms: Seq<MacroModel>) -> bool {
    forall|i: int, j: int|
        0 <= i < j < ms.len() ==> (#[trigger] ms[i]).body != (#[trigger] ms[j]).body
}

/// Pass one leaves the bodies pairwise distinct.
pub proof fn lemma_merge_by_body_distinct(ms: Seq<MacroModel>)
    ensures
        bodies_distinct(merge_by_body_spec(ms)),
    decreases ms.len(),
{
    if ms.len() != 0 {
        lemma_merge_by_body_distinct(ms.drop_last());
        let acc = merge_by_body_spec(ms.drop_last());
        let m = ms.last();
        let i = find_body(acc, m.body);
        lemma_find_body(acc, m.body);
        let out = merge_by_body_spec(ms);
        if i == -1 {
            assert forall|a: int, b: int|
                0 <= a < b < out.len() implies (#[trigger] out[a]).body != (
            #[trigger] out[b]).body by {
                if b < acc.len() {
                    assert(out[a] == acc[a] && out[b] == acc[b]);
                } else {
                    assert(out[a] == acc[a] && out[b] == m);
                }
            }
        } else {
            assert forall|a: int, b: int|
                0 <= a < b < out.len() implies (#[trigger] out[a]).body != (
            #[trigger] out[b]).body by {
                assert(out[a].body == acc[a].body && out[b].body == acc[b].body);
            }
        }
    }
}

/// On a list whose bodies are pairwise distinct, pass one changes
/// nothing.
pub proof fn lemma_merge_by_body_identity(ms: Seq<MacroModel>)
    requires
        bodies_distinct(ms),
    ensures
        merge_by_body_spec(ms) == ms,
    decreases ms.len(),
{
    if ms.len() != 0 {
        assert(bodies_distinct(ms.drop_last())) by {
            assert(forall|i: int|
                0 <= i < ms.len() - 1 ==> ms.drop_last()[i] == #[trigger] ms[i]);
        }
        lemma_merge_by_body_identity(ms.drop_last());
        let acc = ms.drop_last();
        let m = ms.last();
        lemma_find_body(acc, m.body);
        if find_body(acc, m.body) != -1 {
            let i = find_body(acc, m.body);
            assert(acc[i] == ms[i]);
            assert(ms[i].body == ms[ms.len() - 1].body);
            assert(false);
        }
        assert(merge_by_body_spec(ms) =~= ms);
    }
}

/// Pass one is idempotent: run on its own output it merges nothing more.
pub proof fn lemma_merge_by_body_idempotent(ms: Seq<MacroModel>)
    ensures
        merge_by_body_spec(merge_by_body_spec(ms)) == merge_by_body_spec(ms),
{
    lemma_merge_by_body_distinct(ms);
    lemma_merge_by_body_identity(merge_by_body_spec(ms));
}

/// Clones a feature-tag list.
fn clone_features(v: &Vec<String>) -> (r: Vec<String>)
    ensures
        r.deep_view() == v.deep_view(),
{
    let mut out: Vec<String> = Vec::new();
    let mut i: usize = 0;
    while i < v.len()
        invariant
            i <= v@.len(),
            out@.len() == i,
            out.deep_view() == v.deep_view().take(i as int),
        decreases v@.len() - i,
    {
        let ghost prev = out@;
        out.push(v[i].clone());
        proof {
            assert forall|j: int| 0 <= j < out@.len() implies out.deep_view()[j]
                == v.deep_view().take(i + 1)[j] by {
                if j < i {
                    assert(out@[j] == prev[j]);
                }
            }
            assert(out.deep_view() =~= v.deep_view().take(i + 1));
        }
        i = i + 1;
    }
    proof {
        assert(v.deep_view().take(v@.len() as int) =~= v.deep_view());
    }
    out
}

/// Appends clones of the tags of `src` onto `dst`.
fn extend_features(dst: &mut Vec<String>, src: &Vec<String>)
    ensures
        final(dst).deep_view() == old(dst).deep_view() + src.deep_view(),
{
    let mut i: usize = 0;
    while i < src.len()
        invariant
            i <= src@.len(),
            dst@.len() == old(dst)@.len() + i,
            dst.deep_view() == old(dst).deep_view() + src.deep_view().take(i as int),
        decreases src@.len() - i,
    {
        let ghost prev = dst@;
        let ghost prevdeep = dst.deep_view();
        dst.push(src[i].clone());
        proof {
            assert forall|j: int| 0 <= j < dst@.len() implies dst.deep_view()[j] == (old(
                dst,
            ).deep_view() + src.deep_view().take(i + 1))[j] by {
                if j < prev.len() {
                    assert(dst@[j] == prev[j]);
                    assert(prevdeep[j] == prev[j].deep_view());
                    assert(prevdeep[j] == (old(dst).deep_view() + src.deep_view().take(
                        i as int,
                    ))[j]);
                }
            }
            assert(dst.deep_view() =~= old(dst).deep_view() + src.deep_view().take(i + 1));
        }
        i = i + 1;
    }
    proof {
        assert(src.deep_view().take(src@.len() as int) =~= src.deep_view());
    }
}

/// Whether two feature-tag lists are equal, order-sensitively.
fn features_eq(a: &Vec<String>, b: &Vec<String>) -> (r: bool)
    ensures
        r == (a.deep_view() == b.deep_view()),
{
    if a.len() != b.len() {
        proof {
            assert(a.deep_view().len() == a@.len());
            assert(b.deep_view().len() == b@.len());
        }
        return false;
    }
    let mut i: usize = 0;
    while i < a.len()
        invariant
            i <= a@.len(),
            a@.len() == b@.len(),
            forall|j: int| 0 <= j < i ==> a.deep_view()[j] == b.deep_view()[j],
        decreases a@.len() - i,
    {
        if !str_eq_exec(a[i].as_str(), b[i].as_str()) {
            proof {
                assert(a.deep_view()[i as int] != b.deep_view()[i as int]);
            }
            return false;
        }
        i = i + 1;
    }
    proof {
        assert(a.deep_view() =~= b.deep_view());
    }
    true
}

/// Pass one: merges records with identical bodies, in order, unioning
/// their feature tags onto the first record carrying the body.
pub fn merge_by_body(macros: Vec<PortMacro>) -> (r: Vec<PortMacro>)
    ensures
        models(r@) == merge_by_body_spec(models(macros@)),
{
    let ghost all = models(macros@);
    let mut out: Vec<PortMacro> = Vec::new();
    let n = macros.len();
    proof {
        assert(models(out@) =~= Seq::<MacroModel>::empty());
        assert(all.take(0) =~= Seq::empty());
        assert(merge_by_body_spec(all.take(0)) =~= Seq::<MacroModel>::empty());
    }
    let mut i: usize = 0;
    while i < n
        invariant
            i <= n,
            n == macros@.len(),
            all == models(macros@),
            models(out@) == merge_by_body_spec(all.take(i as int)),
        decreases n - i,
    {
        let m = &macros[i];
        let ghost acc = models(out@);
        proof {
            assert(all.take(i + 1).drop_last() =~= all.take(i as int));
            assert(all.take(i + 1).last() == all[i as int]);
            assert(all[i as int] == macros@[i as int]@);
            lemma_find_body(acc, m.string@);
        }
        let mut found = false;
        let mut j: usize = 0;
        let olen = out.len();
        while j < olen && !found
            invariant
                j <= olen,
                olen == out@.len(),
                acc == models(out@),
                !found ==> forall|k: int| 0 <= k < j ==> (#[trigger] acc[k]).body != m.string@,
                found ==> j < olen && acc[j as int].body == m.string@ && forall|k: int|
                    0 <= k < j ==> (#[trigger] acc[k]).body != m.string@,
            decreases olen - j + (if found { 0int } else { 1int }),
        {
            if str_eq_exec(out[j].string.as_str(), m.string.as_str()) {
                found = true;
            } else {
                j = j + 1;
            }
        }
        if found {
            {
                proof {
                    assert(acc[j as int].body == m.string@);
                    assert(find_body(acc, m.string@) == j as int);
                }
                let mut e = out.remove(j);
                extend_features(&mut e.features, &m.features);
                out.insert(j, e);
                proof {
                    assert(models(out@) =~= acc.update(
                        j as int,
                        MacroModel {
                            features: acc[j as int].features + macros@[i as int]@.features,
                            body: acc[j as int].body,
                        },
                    ));
                    assert(models(out@) =~= merge_by_body_spec(all.take(i + 1)));
                }
            }
        } else {
            {
                proof {
                    assert(find_body(acc, m.string@) == -1) by {
                        lemma_find_body(acc, m.string@);
                        if find_body(acc, m.string@) != -1 {
                            assert(acc[find_body(acc, m.string@)].body == m.string@);
                        }
                    }
                }
                let copy = PortMacro {
                    features: clone_features(&m.features),
                    string: m.string.clone(),
                };
                out.push(copy);
                proof {
                    assert(models(out@) =~= acc.push(macros@[i as int]@));
                    assert(models(out@) =~= merge_by_body_spec(all.take(i + 1)));
                }
            }
        }
        i = i + 1;
    }
    proof {
        assert(all.take(n as int) =~= all);
    }
    out
}

/// Pass two: merges records with identical feature-tag lists, in order,
/// appending the later body, newline-separated, onto the first record
/// carrying the list.
pub fn merge_by_features(macros: Vec<PortMacro>) -> (r: Vec<PortMacro>)
    ensures
        models(r@) == merge_by_features_spec(models(macros@)),
{
    let ghost all = models(macros@);
    let mut out: Vec<PortMacro> = Vec::new();
    let n = macros.len();
    proof {
        assert(models(out@) =~= Seq::<MacroModel>::empty());
        assert(all.take(0) =~= Seq::empty());
        assert(merge_by_features_spec(all.take(0)) =~= Seq::<MacroModel>::empty());
    }
    let mut i: usize = 0;
    while i < n
        invariant
            i <= n,
            n == macros@.len(),
            all == models(macros@),
            models(out@) == merge_by_features_spec(all.take(i as int)),
        decreases n - i,
    {
        let m = &macros[i];
        let ghost acc = models(out@);
        proof {
            assert(all.take(i + 1).drop_last() =~= all.take(i as int));
            assert(all.take(i + 1).last() == all[i as int]);
            assert(all[i as int] == macros@[i as int]@);
            lemma_find_features(acc, m.features.deep_view());
        }
        let mut found = false;
        let mut j: usize = 0;
        let olen = out.len();
        while j < olen && !found
            invariant
                j <= olen,
                olen == out@.len(),
                acc == models(out@),
                !found ==> forall|k: int|
                    0 <= k < j ==> (#[trigger] acc[k]).features != m.features.deep_view(),
                found ==> j < olen && acc[j as int].features == m.features.deep_view() && forall|
                    k: int,
                |
                    0 <= k < j ==> (#[trigger] acc[k]).features != m.features.deep_view(),
            decreases olen - j + (if found { 0int } else { 1int }),
        {
            if features_eq(&out[j].features, &m.features) {
                found = true;
            } else {
                j = j + 1;
            }
        }
        if found {
            {
                proof {
                    assert(acc[j as int].features == m.features.deep_view());
                    assert(find_features(acc, m.features.deep_view()) == j as int);
                }
                let mut e = out.remove(j);
                crate::strutil::push_char(&mut e.string, '\n');
                e.string.append(m.string.as_str());
                out.insert(j, e);
                proof {
                    assert(acc[j as int].body.push('\n') =~= acc[j as int].body + seq!['\n']);
                    assert(models(out@) =~= acc.update(
                        j as int,
                        MacroModel {
                            features: acc[j as int].features,
                            body: acc[j as int].body + seq!['\n'] + macros@[i as int]@.body,
                        },
                    ));
                    assert(models(out@) =~= merge_by_features_spec(all.take(i + 1)));
                }
            }
        } else {
            {
                proof {
                    assert(find_features(acc, m.features.deep_view()) == -1) by {
                        lemma_find_features(acc, m.features.deep_view());
                        if find_features(acc, m.features.deep_view()) != -1 {
                            assert(acc[find_features(acc, m.features.deep_view())].features
                                == m.features.deep_view());
                        }
                    }
                }
                let copy = PortMacro {
                    features: clone_features(&m.features),
                    string: m.string.clone(),
                };
                out.push(copy);
                proof {
                    assert(models(out@) =~= acc.push(macros@[i as int]@));
                    assert(models(out@) =~= merge_by_features_spec(all.take(i + 1)));
                }
            }
        }
        i = i + 1;
    }
    proof {
        assert(all.take(n as int) =~= all);
    }
    out
}

} // verus!
