//! Exclusion policy: decides whether a file path takes part in
//! attribution, and for what reason it is left out.

use vstd::prelude::*;
use crate::text::is_prefix_of;
use crate::text::is_suffix_of;
use crate::text::str_starts_with;
use crate::text::str_ends_with;
use crate::text::str_eq;

verus! {

/// The file name of a path: what follows the last slash.
pub open spec fn file_name_spec(p: Seq<char>) -> Seq<char>
    decreases p.len(),
{
    if p.len() == 0 || p.last() == '/' {
        Seq::empty()
    } else {
        file_name_spec(p.drop_last()).push(p.last())
    }
}

/// The extension of a file name: what follows the last dot, provided that
/// dot does not open the name.  A name with no such dot has none.
pub open spec fn ext_of(name: Seq<char>) -> Option<Seq<char>>
    decreases name.len(),
{
    if name.len() <= 1 {
        None
    } else if name.last() == '.' {
        Some(Seq::empty())
    } else {
        match ext_of(name.drop_last()) {
            Some(e) => Some(e.push(name.last())),
            None => None,
        }
    }
}

/// An extension of a binary artifact.
pub open spec fn is_binary_ext(e: Seq<char>) -> bool {
    ||| e == "bin"@
    ||| e == "data"@
    ||| e == "elf"@
    ||| e == "gz"@
    ||| e == "hex128"@
    ||| e == "hex8"@
    ||| e == "pdf"@
    ||| e == "png"@
    ||| e == "tar"@
    ||| e == "wcfg"@
    ||| e == "xlsx"@
}

/// An extension of a generated source.
pub open spec fn is_generated_ext(e: Seq<char>) -> bool {
    ||| e == "v"@
    ||| e == "xml"@
    ||| e == "edif"@
    ||| e == "edf"@
    ||| e == "rpt"@
    ||| e == "xci"@
}

/// Why a path is excluded, or nothing when it is eligible; the first
/// matching rule wins.
pub open spec fn reason_spec(p: Seq<char>) -> Option<Seq<char>> {
    if is_prefix_of("cache/"@, p) {
        Some("generated"@)
    } else if is_prefix_of("xip/"@, p) {
        Some("mostly imported"@)
    } else if ext_of(file_name_spec(p)) matches Some(e) && is_binary_ext(e) {
        Some("binary extension"@)
    } else if ext_of(file_name_spec(p)) matches Some(e) && is_generated_ext(e) {
        Some("autogenerated"@)
    } else if is_suffix_of(".bd.tcl"@, file_name_spec(p)) {
        Some("mostly autogenerated"@)
    } else {
        None
    }
}

proof fn lemma_file_name_subrange(p: Seq<char>, cut: int)
    requires
        0 <= cut <= p.len(),
        cut == 0 || p[cut - 1] == '/',
        forall|j: int| cut <= j < p.len() ==> p[j] != '/',
    ensures
        file_name_spec(p) == p.subrange(cut, p.len() as int),
    decreases p.len(),
{
    if p.len() == cut {
        assert(p.subrange(cut, cut) =~= Seq::<char>::empty());
    } else {
        assert(p.last() != '/');
        lemma_file_name_subrange(p.drop_last(), cut);
        assert(p.drop_last().subrange(cut, p.len() - 1) =~= p.subrange(cut, p.len() - 1));
        assert(p.subrange(cut, p.len() as int) =~= p.subrange(cut, p.len() - 1).push(p.last()));
    }
}

proof fn lemma_ext_some(name: Seq<char>, d: int)
    requires
        1 <= d < name.len(),
        name[d] == '.',
        forall|j: int| d < j < name.len() ==> name[j] != '.',
    ensures
        ext_of(name) == Some(name.subrange(d + 1, name.len() as int)),
    decreases name.len(),
{
    if d == name.len() - 1 {
        assert(name.last() == '.');
        assert(name.subrange(d + 1, name.len() as int) =~= Seq::<char>::empty());
    } else {
        assert(name.last() != '.');
        lemma_ext_some(name.drop_last(), d);
        assert(name.drop_last().subrange(d + 1, name.len() - 1) =~= name.subrange(
            d + 1,
            name.len() - 1,
        ));
        assert(name.subrange(d + 1, name.len() as int) =~= name.subrange(
            d + 1,
            name.len() - 1,
        ).push(name.last()));
    }
}

proof fn lemma_ext_none(name: Seq<char>)
    requires
        forall|j: int| 1 <= j < name.len() ==> name[j] != '.',
    ensures
        ext_of(name) is None,
    decreases name.len(),
{
    if name.len() > 1 {
        assert(name.last() != '.');
        lemma_ext_none(name.drop_last());
    }
}

/// Classifies one path: the reason it is excluded from attribution, or
/// nothing when it is eligible.  The decision is a function of the path
/// alone, so one path always draws the same answer.
pub fn reason_to_skip(path: &str) -> (r: Option<String>)
    ensures
        match r {
            Some(s) => reason_spec(path@) == Some(s@),
            None => reason_spec(path@) is None,
        },
{
    if str_starts_with(path, "cache/") {
        return Some("generated".to_owned());
    }
    if str_starts_with(path, "xip/") {
        return Some("mostly imported".to_owned());
    }
    let len = path.unicode_len();
    let mut cut: usize = 0;
    let mut i: usize = 0;
    while i < len
        invariant
            len == path@.len(),
            0 <= cut <= i <= len,
            cut == 0 || path@[cut - 1] == '/',
            forall|j: int| cut <= j < i ==> path@[j] != '/',
        decreases len - i,
    {
        if path.get_char(i) == '/' {
            cut = i + 1;
        }
        i += 1;
    }
    let name = path.substring_char(cut, len);
    proof {
        lemma_file_name_subrange(path@, cut as int);
        assert(name@ == file_name_spec(path@));
    }
    let nlen = name.unicode_len();
    let mut dot: usize = 0;
    let mut has_dot = false;
    let mut k: usize = 0;
    while k < nlen
        invariant
            nlen == name@.len(),
            0 <= k <= nlen,
            has_dot ==> 1 <= dot < k && name@[dot as int] == '.',
            has_dot ==> forall|j: int| dot < j < k ==> name@[j] != '.',
            !has_dot ==> forall|j: int| 1 <= j < k ==> name@[j] != '.',
        decreases nlen - k,
    {
        if k >= 1 && name.get_char(k) == '.' {
            dot = k;
            has_dot = true;
        }
        k += 1;
    }
    if has_dot {
        let ext = name.substring_char(dot + 1, nlen);
        proof {
            lemma_ext_some(name@, dot as int);
            assert(ext_of(file_name_spec(path@)) == Some(ext@));
        }
        if str_eq(ext, "bin") || str_eq(ext, "data") || str_eq(ext, "elf") || str_eq(ext, "gz")
            || str_eq(ext, "hex128") || str_eq(ext, "hex8") || str_eq(ext, "pdf") || str_eq(
            ext,
            "png",
        ) || str_eq(ext, "tar") || str_eq(ext, "wcfg") || str_eq(ext, "xlsx") {
            return Some("binary extension".to_owned());
        }
        if str_eq(ext, "v") || str_eq(ext, "xml") || str_eq(ext, "edif") || str_eq(ext, "edf")
            || str_eq(ext, "rpt") || str_eq(ext, "xci") {
            return Some("autogenerated".to_owned());
        }
    } else {
        proof {
            lemma_ext_none(name@);
        }
    }
    if str_ends_with(name, ".bd.tcl") {
        return Some("mostly autogenerated".to_owned());
    }
    None
}

/// The eligible paths among `ps`, in order: those the policy excludes for
/// no reason.
pub open spec fn eligible_spec(ps: Seq<Seq<char>>) -> Seq<Seq<char>> {
    ps.filter(|p: Seq<char>| reason_spec(p) is None)
}

proof fn lemma_eligible_push(ps: Seq<Seq<char>>, p: Seq<char>)
    ensures
        reason_spec(p) is None ==> eligible_spec(ps.push(p)) == eligible_spec(ps).push(p),
        !(reason_spec(p) is None) ==> eligible_spec(ps.push(p)) == eligible_spec(ps),
{
    reveal_with_fuel(Seq::<_>::filter, 2);
    assert(ps.push(p).drop_last() =~= ps);
    assert(ps.push(p).last() == p);
}

/// Keeps the paths that take part in attribution, in their given order.
pub fn eligible_files(files: &Vec<String>) -> (r: Vec<String>)
    ensures
        r.deep_view() == eligible_spec(files.deep_view()),
{
    let ghost dv = files.deep_view();
    let mut r: Vec<String> = Vec::new();
    proof {
        assert(dv.take(0) =~= Seq::<Seq<char>>::empty());
        assert(r.deep_view() =~= eligible_spec(dv.take(0)));
    }
    let mut i: usize = 0;
    while i < files.len()
        invariant
            dv == files.deep_view(),
            dv.len() == files@.len(),
            0 <= i <= files@.len(),
            r.deep_view() == eligible_spec(dv.take(i as int)),
        decreases files@.len() - i,
    {
        let f = &files[i];
        proof {
            assert(dv[i as int] == f@);
            assert(dv.take(i + 1) =~= dv.take(i as int).push(dv[i as int]));
            lemma_eligible_push(dv.take(i as int), dv[i as int]);
        }
        let keep = match reason_to_skip(f.as_str()) {
            Some(_) => false,
            None => true,
        };
        if keep {
            let c = f.clone();
            r.push(c);
            proof {
                assert(r.deep_view() =~= r.deep_view().drop_last().push(f@));
            }
        }
        i += 1;
    }
    proof {
        assert(dv.take(files@.len() as int) =~= dv);
    }
    r
}

} // verus!
