//! Character-level string utilities: equality, prefix and suffix tests,
//! splitting into lines, decimal rendering and padding.

use vstd::prelude::*;

verus! {

/// Relies on `String::push`: appends exactly the one given character.
#[verifier::external_body]
pub fn push_char(s: &mut String, c: char)
    ensures
        final(s)@ == old(s)@ + seq![c],
{
    s.push(c);
}

/// `pre` is an initial segment of `s`.
pub open spec fn is_prefix_of(pre: Seq<char>, s: Seq<char>) -> bool {
    pre.len() <= s.len() && forall|i: int| 0 <= i < pre.len() ==> s[i] == pre[i]
}

/// `suf` is a final segment of `s`.
pub open spec fn is_suffix_of(suf: Seq<char>, s: Seq<char>) -> bool {
    suf.len() <= s.len() && forall|i: int|
        0 <= i < suf.len() ==> s[s.len() - suf.len() + i] == suf[i]
}

/// Decides character-for-character equality of two string slices.
pub fn str_eq(a: &str, b: &str) -> (r: bool)
    ensures
        r == (a@ == b@),
{
    let alen = a.unicode_len();
    let blen = b.unicode_len();
    if alen != blen {
        return false;
    }
    let mut i: usize = 0;
    while i < alen
        invariant
            alen == a@.len(),
            blen == b@.len(),
            alen == blen,
            0 <= i <= alen,
            forall|j: int| 0 <= j < i ==> a@[j] == b@[j],
        decreases alen - i,
    {
        if a.get_char(i) != b.get_char(i) {
            return false;
        }
        i += 1;
    }
    proof {
        assert(a@ =~= b@);
    }
    true
}

/// Decides whether `pre` is an initial segment of `s`.
pub fn str_starts_with(s: &str, pre: &str) -> (r: bool)
    ensures
        r == is_prefix_of(pre@, s@),
{
    let slen = s.unicode_len();
    let plen = pre.unicode_len();
    if plen > slen {
        return false;
    }
    let mut i: usize = 0;
    while i < plen
        invariant
            slen == s@.len(),
            plen == pre@.len(),
            plen <= slen,
            0 <= i <= plen,
            forall|j: int| 0 <= j < i ==> s@[j] == pre@[j],
        decreases plen - i,
    {
        if s.get_char(i) != pre.get_char(i) {
            return false;
        }
        i += 1;
    }
    true
}

/// Decides whether `suf` is a final segment of `s`.
pub fn str_ends_with(s: &str, suf: &str) -> (r: bool)
    ensures
        r == is_suffix_of(suf@, s@),
{
    let slen = s.unicode_len();
    let flen = suf.unicode_len();
    if flen > slen {
        return false;
    }
    let off = slen - flen;
    let mut i: usize = 0;
    while i < flen
        invariant
            slen == s@.len(),
            flen == suf@.len(),
            flen <= slen,
            off == slen - flen,
            0 <= i <= flen,
            forall|j: int| 0 <= j < i ==> s@[off + j] == suf@[j],
        decreases flen - i,
    {
        if s.get_char(off + i) != suf.get_char(i) {
            return false;
        }
        i += 1;
    }
    true
}

/// One line of a terminated piece, with a carriage return before the line
/// feed removed.
pub open spec fn strip_cr(l: Seq<char>) -> Seq<char> {
    if l.len() > 0 && l.last() == '\r' {
        l.drop_last()
    } else {
        l
    }
}

/// The lines of `s` after the open line `cur`: pieces delimited by line
/// feeds, a carriage return directly before a line feed removed, and no
/// empty piece after a final line feed.
pub open spec fn lines_from(s: Seq<char>, cur: Seq<char>) -> Seq<Seq<char>>
    decreases s.len(),
{
    if s.len() == 0 {
        if cur.len() == 0 {
            Seq::empty()
        } else {
            seq![cur]
        }
    } else if s[0] == '\n' {
        seq![strip_cr(cur)] + lines_from(s.drop_first(), Seq::empty())
    } else {
        lines_from(s.drop_first(), cur.push(s[0]))
    }
}

/// The lines of `s`, as `str::lines` yields them.
pub open spec fn lines_spec(s: Seq<char>) -> Seq<Seq<char>> {
    lines_from(s, Seq::empty())
}

/// Splits `s` into its lines.
pub fn split_lines(s: &str) -> (r: Vec<String>)
    ensures
        r.deep_view() == lines_spec(s@),
{
    let len = s.unicode_len();
    let mut out: Vec<String> = Vec::new();
    let mut cur = String::new();
    let mut i: usize = 0;
    proof {
        assert(s@.skip(0) =~= s@);
        assert(out.deep_view() =~= Seq::<Seq<char>>::empty());
        assert(out.deep_view() + lines_from(s@, cur@) =~= lines_from(s@, cur@));
    }
    while i < len
        invariant
            len == s@.len(),
            0 <= i <= len,
            out.deep_view() + lines_from(s@.skip(i as int), cur@) == lines_spec(s@),
        decreases len - i,
    {
        let c = s.get_char(i);
        proof {
            assert(s@.skip(i as int).drop_first() =~= s@.skip(i + 1));
            assert(s@.skip(i as int)[0] == s@[i as int]);
        }
        if c == '\n' {
            let cl = cur.as_str().unicode_len();
            let line = if cl > 0 && cur.as_str().get_char(cl - 1) == '\r' {
                let t = cur.as_str().substring_char(0, cl - 1);
                proof {
                    assert(t@ =~= strip_cr(cur@));
                }
                t.to_owned()
            } else {
                cur
            };
            out.push(line);
            cur = String::new();
            proof {
                assert(out.deep_view() =~= out.deep_view().drop_last() + seq![line@]);
            }
        } else {
            let ghost old_cur = cur@;
            push_char(&mut cur, c);
            proof {
                assert(cur@ =~= old_cur.push(c));
            }
        }
        i += 1;
    }
    proof {
        assert(s@.skip(len as int) =~= Seq::<char>::empty());
    }
    if cur.as_str().unicode_len() > 0 {
        out.push(cur);
        proof {
            assert(out.deep_view() =~= out.deep_view().drop_last() + seq![out.deep_view().last()]);
        }
    }
    out
}

/// The decimal digits of `n`, most significant first.
pub open spec fn dec_spec(n: int) -> Seq<char>
    decreases n,
{
    if n < 10 {
        seq![crate::digit_char(n % 10)]
    } else {
        dec_spec(n / 10).push(crate::digit_char(n % 10))
    }
}

/// Renders `n` in decimal.
pub fn u64_to_string(n: u64) -> (r: String)
    ensures
        r@ == dec_spec(n as int),
{
    let mut digits: Vec<u8> = Vec::new();
    let mut m = n;
    proof {
        assert(digits@.map_values(|d: u8| d as char).reverse() =~= Seq::<char>::empty());
        assert(dec_spec(n as int) + Seq::<char>::empty() =~= dec_spec(n as int));
    }
    loop
        invariant_except_break
            dec_spec(m as int) + digits@.map_values(|d: u8| d as char).reverse() == dec_spec(
                n as int,
            ),
        ensures
            digits@.map_values(|d: u8| d as char).reverse() == dec_spec(n as int),
        decreases m,
    {
        let ghost pre = digits@.map_values(|d: u8| d as char).reverse();
        let d: u8 = 48 + (m % 10) as u8;
        digits.push(d);
        proof {
            assert(digits@.map_values(|d: u8| d as char).reverse() =~= seq![
                crate::digit_char(m as int % 10),
            ] + pre);
        }
        if m < 10 {
            proof {
                assert(dec_spec(m as int) =~= seq![crate::digit_char(m as int % 10)]);
                assert(dec_spec(m as int) + pre =~= seq![crate::digit_char(m as int % 10)] + pre);
            }
            break;
        }
        proof {
            assert(dec_spec(m as int) =~= dec_spec(m as int / 10).push(
                crate::digit_char(m as int % 10),
            ));
            assert(dec_spec(m as int / 10) + (seq![crate::digit_char(m as int % 10)] + pre)
                =~= dec_spec(m as int) + pre);
        }
        m = m / 10;
    }
    let mut r = String::new();
    let mut i: usize = digits.len();
    while i > 0
        invariant
            0 <= i <= digits@.len(),
            r@ + digits@.subrange(0, i as int).map_values(|d: u8| d as char).reverse() == dec_spec(
                n as int,
            ),
        decreases i,
    {
        i -= 1;
        let ghost pre_r = r@;
        push_char(&mut r, digits[i] as char);
        proof {
            let mapped = |d: u8| d as char;
            assert(digits@.subrange(0, i + 1).map_values(mapped).reverse() =~= seq![
                digits@[i as int] as char,
            ] + digits@.subrange(0, i as int).map_values(mapped).reverse());
            assert(pre_r + (seq![digits@[i as int] as char] + digits@.subrange(
                0,
                i as int,
            ).map_values(mapped).reverse()) =~= r@ + digits@.subrange(0, i as int).map_values(
                mapped,
            ).reverse());
        }
    }
    proof {
        assert(digits@.subrange(0, 0).map_values(|d: u8| d as char).reverse() =~= Seq::<
            char,
        >::empty());
        assert(r@ =~= r@ + Seq::<char>::empty());
    }
    r
}

/// A run of `n` spaces.
pub open spec fn spaces(n: int) -> Seq<char> {
    Seq::new(if n < 0 { 0 } else { n as nat }, |i: int| ' ')
}

/// `s` padded with spaces on the left to width `w`; unchanged when already
/// as wide.
pub open spec fn pad_left_spec(s: Seq<char>, w: int) -> Seq<char> {
    spaces(w - s.len()) + s
}

/// `s` padded with spaces on the right to width `w`; unchanged when already
/// as wide.
pub open spec fn pad_right_spec(s: Seq<char>, w: int) -> Seq<char> {
    s + spaces(w - s.len())
}

/// Pads `s` with spaces on the left to width `w`.
pub fn pad_left(s: &str, w: usize) -> (r: String)
    ensures
        r@ == pad_left_spec(s@, w as int),
{
    let len = s.unicode_len();
    let mut r = String::new();
    let mut i: usize = len;
    while i < w
        invariant
            len == s@.len(),
            len <= i,
            i == len || i <= w,
            r@.len() == i - len,
            forall|j: int| 0 <= j < r@.len() ==> r@[j] == ' ',
        decreases w - i,
    {
        push_char(&mut r, ' ');
        i += 1;
    }
    proof {
        assert(r@ =~= spaces(w - s@.len()));
    }
    r.append(s);
    r
}

/// Pads `s` with spaces on the right to width `w`.
pub fn pad_right(s: &str, w: usize) -> (r: String)
    ensures
        r@ == pad_right_spec(s@, w as int),
{
    let len = s.unicode_len();
    let mut r = String::from_str(s);
    let mut i: usize = len;
    while i < w
        invariant
            len == s@.len(),
            len <= i,
            i == len || i <= w,
            r@.len() == i,
            forall|j: int| 0 <= j < len ==> r@[j] == s@[j],
            forall|j: int| len <= j < r@.len() ==> r@[j] == ' ',
        decreases w - i,
    {
        push_char(&mut r, ' ');
        i += 1;
    }
    proof {
        assert(r@ =~= pad_right_spec(s@, w as int));
    }
    r
}

} // verus!
