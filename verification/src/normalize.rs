//! Canonicalization of raw author identities: separator runs become one
//! space, letters are lower-cased, and each word is title-cased.

use vstd::prelude::*;
use crate::text::push_char;

verus! {

/// A separator character of a raw identity.
pub open spec fn is_sep(c: char) -> bool {
    c == '-' || c == '_' || c == '.'
}

/// An ASCII lower-case letter.
pub open spec fn is_lower_alpha(c: char) -> bool {
    97 <= c as u32 <= 122
}

/// An ASCII upper-case letter.
pub open spec fn is_upper_alpha(c: char) -> bool {
    65 <= c as u32 <= 90
}

/// An ASCII digit.
pub open spec fn is_digit_char(c: char) -> bool {
    48 <= c as u32 <= 57
}

/// A character that continues a word rather than bounding one.
pub open spec fn is_word_char(c: char) -> bool {
    is_lower_alpha(c) || is_upper_alpha(c) || is_digit_char(c) || c == '_'
}

/// `c` lower-cased, when it is an ASCII letter.
pub open spec fn to_lower_char(c: char) -> char {
    if is_upper_alpha(c) {
        (((c as u32) + 32) as u8) as char
    } else {
        c
    }
}

/// `c` upper-cased, when it is an ASCII letter.
pub open spec fn to_upper_char(c: char) -> char {
    if is_lower_alpha(c) {
        (((c as u32) - 32) as u8) as char
    } else {
        c
    }
}

/// The first two normalization steps at once: every run of separators
/// becomes a single space and every other character is lower-cased.
/// `prev_sep` says whether a separator run is already open.
pub open spec fn squash_lower_from(s: Seq<char>, prev_sep: bool) -> Seq<char>
    decreases s.len(),
{
    if s.len() == 0 {
        Seq::empty()
    } else if is_sep(s[0]) {
        if prev_sep {
            squash_lower_from(s.drop_first(), true)
        } else {
            seq![' '] + squash_lower_from(s.drop_first(), true)
        }
    } else {
        seq![to_lower_char(s[0])] + squash_lower_from(s.drop_first(), false)
    }
}

/// The letter at `i` starts a word and is to be capitalized.
pub open spec fn cap_at(t: Seq<char>, i: int) -> bool {
    is_lower_alpha(t[i]) && (i == 0 || !is_word_char(t[i - 1]))
}

/// The third normalization step: each word's first letter upper-cased.
pub open spec fn title_case(t: Seq<char>) -> Seq<char> {
    Seq::new(
        t.len(),
        |i: int|
            if cap_at(t, i) {
                to_upper_char(t[i])
            } else {
                t[i]
            },
    )
}

/// The canonical display form of a raw author identity.
pub open spec fn normalize_spec(s: Seq<char>) -> Seq<char> {
    title_case(squash_lower_from(s, false))
}

/// No character of `t` is a separator.
pub open spec fn no_seps(t: Seq<char>) -> bool {
    forall|i: int| 0 <= i < t.len() ==> !is_sep(#[trigger] t[i])
}

/// No character of `t` is an upper-case letter.
pub open spec fn no_uppers(t: Seq<char>) -> bool {
    forall|i: int| 0 <= i < t.len() ==> !is_upper_alpha(#[trigger] t[i])
}

/// Every character of `t` lower-cased.
pub open spec fn lower_all(t: Seq<char>) -> Seq<char> {
    Seq::new(t.len(), |i: int| to_lower_char(t[i]))
}

proof fn lemma_squash_props(s: Seq<char>, prev_sep: bool)
    ensures
        no_seps(squash_lower_from(s, prev_sep)),
        no_uppers(squash_lower_from(s, prev_sep)),
    decreases s.len(),
{
    if s.len() > 0 {
        if is_sep(s[0]) {
            lemma_squash_props(s.drop_first(), true);
        } else {
            lemma_squash_props(s.drop_first(), false);
        }
    }
}

proof fn lemma_squash_of_clean(t: Seq<char>, prev_sep: bool)
    requires
        no_seps(t),
    ensures
        squash_lower_from(t, prev_sep) == lower_all(t),
    decreases t.len(),
{
    if t.len() == 0 {
        assert(squash_lower_from(t, prev_sep) =~= lower_all(t));
    } else {
        assert(!is_sep(t[0]));
        assert(no_seps(t.drop_first())) by {
            assert(forall|i: int|
                0 <= i < t.drop_first().len() ==> #[trigger] t.drop_first()[i] == t[i + 1]);
        }
        lemma_squash_of_clean(t.drop_first(), false);
        assert(squash_lower_from(t, prev_sep) =~= lower_all(t)) by {
            assert(squash_lower_from(t, prev_sep) == seq![to_lower_char(t[0])]
                + lower_all(t.drop_first()));
        }
    }
}

/// Normalizing is idempotent: a canonical form normalizes to itself.
pub proof fn lemma_normalize_idempotent(s: Seq<char>)
    ensures
        normalize_spec(normalize_spec(s)) == normalize_spec(s),
{
    let t = squash_lower_from(s, false);
    let n = title_case(t);
    lemma_squash_props(s, false);
    assert(no_seps(n)) by {
        assert forall|i: int| 0 <= i < n.len() implies !is_sep(#[trigger] n[i]) by {
            assert(!is_sep(t[i]));
        }
    }
    lemma_squash_of_clean(n, false);
    assert(lower_all(n) =~= t) by {
        assert forall|i: int| 0 <= i < n.len() implies to_lower_char(n[i]) == t[i] by {
            let c = t[i];
            assert(!is_upper_alpha(c));
            if cap_at(t, i) {
                assert(is_lower_alpha(c));
                let w: u32 = (c as u32 - 32) as u32;
                assert(w == (c as u32) - 32);
                assert(n[i] == (w as u8) as char);
                assert(((w as u8) as char) as u32 == w) by {
                    vstd::utf8::char_u32_cast((w as u8) as char, w);
                }
                assert(is_upper_alpha(n[i]));
                let v: u32 = (n[i] as u32 + 32) as u32;
                assert(v == c as u32);
                assert(to_lower_char(n[i]) == (v as u8) as char);
                assert((v as u8) as char == c) by {
                    vstd::utf8::char_u32_cast(c, v);
                }
            } else {
                assert(n[i] == c);
            }
        }
    }
}

/// Canonicalizes one raw author identity.
pub fn normalize(raw: &str) -> (r: String)
    ensures
        r@ == normalize_spec(raw@),
{
    let len = raw.unicode_len();
    let mut t = String::new();
    let mut prev_sep = false;
    let mut i: usize = 0;
    proof {
        assert(raw@.skip(0) =~= raw@);
        assert(t@ + squash_lower_from(raw@, false) =~= squash_lower_from(raw@, false));
    }
    while i < len
        invariant
            len == raw@.len(),
            0 <= i <= len,
            t@ + squash_lower_from(raw@.skip(i as int), prev_sep) == squash_lower_from(
                raw@,
                false,
            ),
        decreases len - i,
    {
        let c = raw.get_char(i);
        proof {
            assert(raw@.skip(i as int).drop_first() =~= raw@.skip(i + 1));
            assert(raw@.skip(i as int)[0] == raw@[i as int]);
        }
        let ghost pre = t@;
        let ghost rest = squash_lower_from(raw@.skip(i as int), prev_sep);
        if c == '-' || c == '_' || c == '.' {
            if !prev_sep {
                push_char(&mut t, ' ');
                proof {
                    assert(pre + (seq![' '] + squash_lower_from(raw@.skip(i + 1), true)) =~= t@
                        + squash_lower_from(raw@.skip(i + 1), true));
                }
            }
            prev_sep = true;
        } else {
            let u = c as u32;
            let lc: char = if 65 <= u && u <= 90 {
                ((u + 32) as u8) as char
            } else {
                c
            };
            proof {
                assert(lc == to_lower_char(c));
            }
            push_char(&mut t, lc);
            prev_sep = false;
            proof {
                assert(pre + (seq![lc] + squash_lower_from(raw@.skip(i + 1), false)) =~= t@
                    + squash_lower_from(raw@.skip(i + 1), false));
            }
        }
        i += 1;
    }
    proof {
        assert(raw@.skip(len as int) =~= Seq::<char>::empty());
        assert(t@ + Seq::<char>::empty() =~= t@);
    }
    let tlen = t.as_str().unicode_len();
    let mut out = String::new();
    let mut j: usize = 0;
    while j < tlen
        invariant
            tlen == t@.len(),
            t@ == squash_lower_from(raw@, false),
            0 <= j <= tlen,
            out@.len() == j,
            forall|k: int| 0 <= k < j ==> out@[k] == title_case(t@)[k],
        decreases tlen - j,
    {
        let c = t.as_str().get_char(j);
        let u = c as u32;
        let is_low = 97 <= u && u <= 122;
        let cap: bool = if !is_low {
            false
        } else if j == 0 {
            true
        } else {
            let p = t.as_str().get_char(j - 1);
            let pu = p as u32;
            !((97 <= pu && pu <= 122) || (65 <= pu && pu <= 90) || (48 <= pu && pu <= 57) || p
                == '_')
        };
        proof {
            assert(cap == cap_at(t@, j as int));
        }
        let oc: char = if cap {
            ((u - 32) as u8) as char
        } else {
            c
        };
        proof {
            assert(oc == if cap_at(t@, j as int) {
                to_upper_char(t@[j as int])
            } else {
                t@[j as int]
            });
        }
        push_char(&mut out, oc);
        j += 1;
    }
    proof {
        assert(out@ =~= title_case(t@));
    }
    out
}

} // verus!
