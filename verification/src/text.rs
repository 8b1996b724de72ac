//! Character-level helpers on names: exact equality, suffix tests and
//! splitting at dots.

use vstd::prelude::*;

use crate::buffer::{first_dot, name_labels};

verus! {

/// Whether two strings hold exactly the same characters.
pub fn str_eq(a: &str, b: &str) -> (r: bool)
    ensures
        r == (a@ == b@),
{
    let an = a.unicode_len();
    let bn = b.unicode_len();
    if an != bn {
        return false;
    }
    let mut i: usize = 0;
    while i < an
        invariant
            i <= an,
            an == a@.len(),
            an == b@.len(),
            forall|j: int| 0 <= j < i ==> a@[j] == b@[j],
        decreases an - i,
    {
        if a.get_char(i) != b.get_char(i) {
            return false;
        }
        i = i + 1;
    }
    proof {
        assert(a@ =~= b@);
    }
    true
}

/// Whether `t` is a suffix of `s`.
pub open spec fn spec_ends_with(s: Seq<char>, t: Seq<char>) -> bool {
    t.len() <= s.len() && s.skip(s.len() - t.len()) == t
}

/// Whether `s` ends with the characters of `t`.
pub fn str_ends_with(s: &str, t: &str) -> (r: bool)
    ensures
        r == spec_ends_with(s@, t@),
{
    let sn = s.unicode_len();
    let tn = t.unicode_len();
    if tn > sn {
        proof {
            assert(!spec_ends_with(s@, t@));
        }
        return false;
    }
    let off = sn - tn;
    let mut i: usize = 0;
    while i < tn
        invariant
            i <= tn <= sn,
            off == sn - tn,
            sn == s@.len(),
            tn == t@.len(),
            forall|j: int| 0 <= j < i ==> s@[off + j] == t@[j],
        decreases tn - i,
    {
        if s.get_char(off + i) != t.get_char(i) {
            proof {
                assert(s@.skip(off as int)[i as int] == s@[off + i]);
                assert(!spec_ends_with(s@, t@));
            }
            return false;
        }
        i = i + 1;
    }
    proof {
        assert(s@.skip(off as int) =~= t@);
    }
    true
}

/// The labels of a dotted name, as owned strings.
pub fn split_name(name: &str) -> (r: Vec<String>)
    ensures
        r@.map_values(|l: String| l@) == name_labels(name@),
        forall|i: int| 0 <= i < r@.len() ==> (#[trigger] r@[i])@ =~= name_labels(name@)[i],
{
    let ghost s = name@;
    let n = name.unicode_len();
    let mut out: Vec<String> = Vec::new();
    let mut start: usize = 0;
    proof {
        assert(s.skip(0) =~= s);
        assert(Seq::<Seq<char>>::empty() + name_labels(s.skip(0)) =~= name_labels(s));
    }
    loop
        invariant
            s == name@,
            n == s.len(),
            start <= n,
            name_labels(s) == out@.map_values(|l: String| l@) + name_labels(s.skip(start as int)),
        decreases n - start,
    {
        let mut end: usize = start;
        while end < n && name.get_char(end) != '.'
            invariant
                s == name@,
                n == s.len(),
                start <= end <= n,
                forall|j: int| start <= j < end ==> s[j] != '.',
            decreases n - end,
        {
            end = end + 1;
        }
        let ghost skipped = s.skip(start as int);
        let ghost lab = s.subrange(start as int, end as int);
        proof {
            assert(forall|j: int| 0 <= j < end - start ==> skipped[j] != '.');
            crate::buffer::lemma_first_dot_at(skipped, end - start);
            if end < n {
                assert(skipped.take(end - start) =~= lab);
                assert(skipped.skip(end - start + 1) =~= s.skip(end + 1));
                assert(name_labels(skipped) == seq![lab] + name_labels(s.skip(end + 1)));
            } else {
                assert(skipped =~= lab);
                assert(name_labels(skipped) == seq![lab]);
            }
        }
        let mut label = String::new();
        let mut j: usize = start;
        while j < end
            invariant
                s == name@,
                n == s.len(),
                start <= j <= end <= n,
                label@ == s.subrange(start as int, j as int),
            decreases end - j,
        {
            let c = name.substring_char(j, j + 1);
            label.append(c);
            proof {
                assert(label@ =~= s.subrange(start as int, j + 1));
            }
            j = j + 1;
        }
        let ghost pre = out@;
        out.push(label);
        proof {
            let f = |l: String| l@;
            assert(out@.map_values(f) =~= pre.map_values(f) + seq![lab]);
            if end < n {
                assert((pre.map_values(f) + seq![lab]) + name_labels(s.skip(end + 1)) =~=
                    pre.map_values(f) + (seq![lab] + name_labels(s.skip(end + 1))));
            } else {
                assert(out@.map_values(f) =~= pre.map_values(f) + name_labels(skipped));
            }
        }
        if end == n {
            proof {
                assert(out@.map_values(|l: String| l@) + Seq::<Seq<char>>::empty() =~=
                    out@.map_values(|l: String| l@));
                assert forall|i: int| 0 <= i < out@.len() implies (#[trigger] out@[i])@ =~=
                    name_labels(name@)[i] by {
                    assert(out@.map_values(|l: String| l@)[i] == out@[i]@);
                };
            }
            return out;
        }
        start = end + 1;
    }
}

} // verus!
