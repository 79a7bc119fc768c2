//! Resolution of an IP-block version identifier to a feature tag.
//!
//! A version string must match the fixed, anchored, case-sensitive pattern
//! `STM32<tag>_gpio_v1_0`, where `<tag>` is one or more word characters
//! (ASCII letters, digits, underscore). On a match the feature tag is
//! `gpio-<tag>` with the tag lower-cased; anything else is a fatal error
//! naming the offending string.

use crate::strutil::{is_word_char, lower_char, push_char, to_lower, word_char};
use crate::types::Error;
use vstd::prelude::*;
use vstd::string::StrSliceExecFns;
use vstd::string::StringExecFns;

verus! {

/// Whether `v` matches `STM32<tag>_gpio_v1_0` with a non-empty tag of
/// word characters.
pub open spec fn version_ok(v: Seq<char>) -> bool {
    &&& v.len() >= 16
    &&& v.take(5) == "STM32"@
    &&& v.skip(v.len() - 10) == "_gpio_v1_0"@
    &&& forall|i: int| 5 <= i < v.len() - 10 ==> is_word_char(#[trigger] v[i])
}

/// The `<tag>` part of a matching version string.
pub open spec fn version_tag(v: Seq<char>) -> Seq<char> {
    v.subrange(5, v.len() - 10)
}

/// The feature tag of a matching version string: `gpio-` followed by the
/// lower-cased tag.
pub open spec fn feature_of(v: Seq<char>) -> Seq<char> {
    "gpio-"@ + version_tag(v).map_values(|c: char| lower_char(c))
}

/// Resolves an IP version string to its feature tag: `STM32<tag>_gpio_v1_0`
/// becomes `gpio-<tag>` with the tag lower-cased; any string that does not
/// match the pattern is rejected, named in the error.
pub fn ip_version_to_feature(ip_version: &str) -> (r: Result<String, Error>)
    ensures
        match r {
            Ok(f) => version_ok(ip_version@) && f@ == feature_of(ip_version@),
            Err(e) => !version_ok(ip_version@) && (e matches Error::InvalidVersion(s) && s@
                == ip_version@),
        },
{
    proof {
        reveal_strlit("STM32");
        reveal_strlit("_gpio_v1_0");
        reveal_strlit("gpio-");
    }
    let len = ip_version.unicode_len();
    if len < 16 {
        return Err(Error::InvalidVersion(ip_version.to_owned()));
    }
    if !(ip_version.get_char(0) == 'S' && ip_version.get_char(1) == 'T' && ip_version.get_char(2)
        == 'M' && ip_version.get_char(3) == '3' && ip_version.get_char(4) == '2') {
        proof {
            assert(version_ok(ip_version@) ==> ip_version@.take(5)[0] == 'S'
                && ip_version@.take(5)[1] == 'T' && ip_version@.take(5)[2] == 'M'
                && ip_version@.take(5)[3] == '3' && ip_version@.take(5)[4] == '2');
        }
        return Err(Error::InvalidVersion(ip_version.to_owned()));
    }
    let tail: usize = len - 10;
    if !(ip_version.get_char(tail) == '_' && ip_version.get_char(tail + 1) == 'g'
        && ip_version.get_char(tail + 2) == 'p' && ip_version.get_char(tail + 3) == 'i'
        && ip_version.get_char(tail + 4) == 'o' && ip_version.get_char(tail + 5) == '_'
        && ip_version.get_char(tail + 6) == 'v' && ip_version.get_char(tail + 7) == '1'
        && ip_version.get_char(tail + 8) == '_' && ip_version.get_char(tail + 9) == '0') {
        proof {
            let s = ip_version@.skip(ip_version@.len() - 10);
            assert(version_ok(ip_version@) ==> s[0] == '_' && s[1] == 'g' && s[2] == 'p' && s[3]
                == 'i' && s[4] == 'o' && s[5] == '_' && s[6] == 'v' && s[7] == '1' && s[8] == '_'
                && s[9] == '0');
        }
        return Err(Error::InvalidVersion(ip_version.to_owned()));
    }
    let mut feature = String::from_str("gpio-");
    let mut i: usize = 5;
    while i < tail
        invariant
            5 <= i <= tail,
            tail == len - 10,
            16 <= len == ip_version@.len(),
            forall|j: int| 5 <= j < i ==> is_word_char(#[trigger] ip_version@[j]),
            feature@ == "gpio-"@ + ip_version@.subrange(5, i as int).map_values(
                |c: char| lower_char(c),
            ),
        decreases tail - i,
    {
        let c = ip_version.get_char(i);
        if !word_char(c) {
            return Err(Error::InvalidVersion(ip_version.to_owned()));
        }
        push_char(&mut feature, to_lower(c));
        proof {
            let lower = |c: char| lower_char(c);
            assert(ip_version@.subrange(5, i + 1) =~= ip_version@.subrange(5, i as int).push(
                ip_version@[i as int],
            ));
            assert(ip_version@.subrange(5, i + 1).map_values(lower) =~= ip_version@.subrange(
                5,
                i as int,
            ).map_values(lower).push(lower_char(ip_version@[i as int])));
            assert(feature@ =~= "gpio-"@ + ip_version@.subrange(5, i + 1).map_values(lower));
        }
        i = i + 1;
    }
    proof {
        assert(ip_version@.take(5) =~= "STM32"@);
        assert(ip_version@.skip(ip_version@.len() - 10) =~= "_gpio_v1_0"@);
        assert(version_ok(ip_version@));
        assert(feature@ == feature_of(ip_version@));
    }
    Ok(feature)
}

} // verus!
