use vstd::prelude::*;
use crate::location::{views, Location, LocationView};

verus! {

/// `x` placed after every entry of `s` whose count is at most its own, counting
/// from the end: on a sorted `s` this keeps the sort stable.
pub open spec fn insert_by_count(s: Seq<LocationView>, x: LocationView) -> Seq<LocationView>
    decreases s.len(),
{
    if s.len() == 0 {
        seq![x]
    } else if s.last().available_count <= x.available_count {
        s.push(x)
    } else {
        insert_by_count(s.drop_last(), x).push(s.last())
    }
}

/// `s` sorted by ascending count, entries of equal count in their order in `s`.
pub open spec fn sort_by_count_spec(s: Seq<LocationView>) -> Seq<LocationView>
    decreases s.len(),
{
    if s.len() == 0 {
        s
    } else {
        insert_by_count(sort_by_count_spec(s.drop_last()), s.last())
    }
}

pub open spec fn sorted_by_count(s: Seq<LocationView>) -> bool {
    forall|i: int, j: int| 0 <= i <= j < s.len() ==> s[i].available_count <= s[j].available_count
}

proof fn lemma_insert_at(s: Seq<LocationView>, x: LocationView, p: int)
    requires
        0 <= p <= s.len(),
        forall|j: int| p <= j < s.len() ==> s[j].available_count > x.available_count,
        p == 0 || s[p - 1].available_count <= x.available_count,
    ensures
        insert_by_count(s, x) == s.insert(p, x),
    decreases s.len(),
{
    if s.len() == 0 {
        assert(s.insert(p, x) =~= seq![x]);
    } else if p == s.len() {
        assert(s.insert(p, x) =~= s.push(x));
    } else {
        let q = s.drop_last();
        lemma_insert_at(q, x, p);
        assert(q.insert(p, x).push(s.last()) =~= s.insert(p, x));
    }
}

/// A stable sort by ascending count.
pub fn sort_by_count(v: &Vec<Location>) -> (r: Vec<Location>)
    ensures
        views(r@) == sort_by_count_spec(views(v@)),
        sorted_by_count(views(r@)),
{
    let ghost vs = views(v@);
    let mut out: Vec<Location> = Vec::new();
    let mut i: usize = 0;
    assert(vs.subrange(0, 0) =~= Seq::<LocationView>::empty());
    assert(views(out@) =~= Seq::<LocationView>::empty());
    while i < v.len()
        invariant
            i <= v@.len(),
            vs == views(v@),
            views(out@) == sort_by_count_spec(vs.subrange(0, i as int)),
            sorted_by_count(views(out@)),
        decreases v@.len() - i,
    {
        let x = v[i].clone();
        let mut p: usize = out.len();
        while p > 0 && out[p - 1].available_count > x.available_count
            invariant
                p <= out@.len(),
                forall|j: int| p <= j < out@.len() ==> out@[j].available_count > x.available_count,
            decreases p,
        {
            p -= 1;
        }
        let ghost before = views(out@);
        proof {
            assert forall|j: int| p <= j < before.len() implies before[j].available_count > x@.available_count by {
                assert(before[j] == out@[j]@);
            }
            if p > 0 {
                assert(before[p - 1] == out@[p - 1]@);
            }
            lemma_insert_at(before, x@, p as int);
            assert(vs.subrange(0, i + 1).drop_last() =~= vs.subrange(0, i as int));
            assert(vs.subrange(0, i + 1).last() == x@);
        }
        out.insert(p, x);
        proof {
            assert(views(out@) =~= before.insert(p as int, x@));
            let after = views(out@);
            assert forall|a: int, b: int| 0 <= a <= b < after.len() implies after[a].available_count
                <= after[b].available_count by {
                if a < p && b > p {
                    assert(before[a].available_count <= before[p - 1].available_count);
                } else if a < p && b == p {
                    assert(before[a].available_count <= before[p - 1].available_count);
                } else if a == p && b > p {
                    assert(after[b] == before[b - 1]);
                }
            }
        }
        i += 1;
    }
    assert(vs.subrange(0, i as int) =~= vs);
    out
}

pub open spec fn regions_view(allowed: Seq<String>) -> Seq<Seq<char>> {
    allowed.map_values(|s: String| s@)
}

/// The entries of `s` whose region is in the allow-list, in order.
pub open spec fn keep_allowed(s: Seq<LocationView>, allowed: Seq<Seq<char>>) -> Seq<LocationView>
    decreases s.len(),
{
    if s.len() == 0 {
        s
    } else if allowed.contains(s.last().region) {
        keep_allowed(s.drop_last(), allowed).push(s.last())
    } else {
        keep_allowed(s.drop_last(), allowed)
    }
}

pub proof fn lemma_keep_allowed_len(s: Seq<LocationView>, allowed: Seq<Seq<char>>)
    ensures
        keep_allowed(s, allowed).len() <= s.len(),
    decreases s.len(),
{
    if s.len() > 0 {
        lemma_keep_allowed_len(s.drop_last(), allowed);
    }
}

/// How many entries of `s` have a region outside the allow-list.
pub open spec fn count_not_allowed(s: Seq<LocationView>, allowed: Seq<Seq<char>>) -> nat
    decreases s.len(),
{
    if s.len() == 0 {
        0
    } else {
        count_not_allowed(s.drop_last(), allowed) + if allowed.contains(s.last().region) {
            0nat
        } else {
            1nat
        }
    }
}

proof fn lemma_keep_allowed_count(s: Seq<LocationView>, allowed: Seq<Seq<char>>)
    ensures
        keep_allowed(s, allowed).len() + count_not_allowed(s, allowed) == s.len(),
    decreases s.len(),
{
    if s.len() > 0 {
        lemma_keep_allowed_count(s.drop_last(), allowed);
    }
}

proof fn lemma_insert_by_count_counts(s: Seq<LocationView>, x: LocationView, allowed: Seq<Seq<char>>)
    ensures
        insert_by_count(s, x).len() == s.len() + 1,
        count_not_allowed(insert_by_count(s, x), allowed) == count_not_allowed(s, allowed)
            + if allowed.contains(x.region) {
            0nat
        } else {
            1nat
        },
    decreases s.len(),
{
    if s.len() == 0 {
        assert(seq![x].drop_last() =~= s);
    } else if s.last().available_count <= x.available_count {
        assert(s.push(x).drop_last() =~= s);
    } else {
        lemma_insert_by_count_counts(s.drop_last(), x, allowed);
        let t = insert_by_count(s.drop_last(), x);
        assert(t.push(s.last()).drop_last() =~= t);
    }
}

proof fn lemma_sort_keeps_counts(s: Seq<LocationView>, allowed: Seq<Seq<char>>)
    ensures
        sort_by_count_spec(s).len() == s.len(),
        count_not_allowed(sort_by_count_spec(s), allowed) == count_not_allowed(s, allowed),
    decreases s.len(),
{
    if s.len() > 0 {
        lemma_sort_keeps_counts(s.drop_last(), allowed);
        lemma_insert_by_count_counts(sort_by_count_spec(s.drop_last()), s.last(), allowed);
    }
}

/// Sorting the changed locations and then keeping those of allowed regions
/// holds back exactly the changed locations whose region is not allowed: as
/// many as there are such locations.
pub proof fn lemma_filtered_out_count(changed: Seq<LocationView>, allowed: Seq<Seq<char>>)
    ensures
        sort_by_count_spec(changed).len() == changed.len(),
        sort_by_count_spec(changed).len() - keep_allowed(sort_by_count_spec(changed), allowed).len()
            == count_not_allowed(changed, allowed),
{
    lemma_sort_keeps_counts(changed, allowed);
    lemma_keep_allowed_count(sort_by_count_spec(changed), allowed);
}

/// Whether `region` is one of the allow-list's names (exact, case-sensitive).
pub fn is_allowed(allowed: &Vec<String>, region: &String) -> (r: bool)
    ensures
        r == regions_view(allowed@).contains(region@),
{
    let mut k: usize = 0;
    while k < allowed.len()
        invariant
            k <= allowed@.len(),
            forall|j: int| 0 <= j < k ==> allowed@[j]@ != region@,
        decreases allowed@.len() - k,
    {
        if allowed[k] == *region {
            assert(regions_view(allowed@)[k as int] == region@);
            return true;
        }
        k += 1;
    }
    assert(!regions_view(allowed@).contains(region@)) by {
        if regions_view(allowed@).contains(region@) {
            let j = choose|j: int| 0 <= j < regions_view(allowed@).len() && regions_view(allowed@)[j] == region@;
            assert(allowed@[j]@ == region@);
        }
    }
    false
}

/// The locations whose region is in the allow-list, in their order.
pub fn filter_allowed(v: &Vec<Location>, allowed: &Vec<String>) -> (r: Vec<Location>)
    ensures
        views(r@) == keep_allowed(views(v@), regions_view(allowed@)),
{
    let ghost vs = views(v@);
    let mut out: Vec<Location> = Vec::new();
    let mut i: usize = 0;
    assert(vs.subrange(0, 0) =~= Seq::<LocationView>::empty());
    assert(views(out@) =~= Seq::<LocationView>::empty());
    while i < v.len()
        invariant
            i <= v@.len(),
            vs == views(v@),
            views(out@) == keep_allowed(vs.subrange(0, i as int), regions_view(allowed@)),
        decreases v@.len() - i,
    {
        assert(vs.subrange(0, i + 1).drop_last() =~= vs.subrange(0, i as int));
        assert(vs.subrange(0, i + 1).last() == v@[i as int]@);
        let ghost before = views(out@);
        if is_allowed(allowed, &v[i].region) {
            out.push(v[i].clone());
            assert(views(out@) =~= before.push(v@[i as int]@));
        }
        i += 1;
    }
    assert(vs.subrange(0, i as int) =~= vs);
    out
}

pub const DIGITS: &'static str = "0123456789";

/// The decimal digit `d`, as text.
pub open spec fn digit_text(d: nat) -> Seq<char> {
    DIGITS@.subrange(d as int, d as int + 1)
}

/// `n` in decimal, without leading zeros.
pub open spec fn decimal(n: nat) -> Seq<char>
    decreases n,
{
    if n < 10 {
        digit_text(n)
    } else {
        decimal(n / 10) + digit_text(n % 10)
    }
}

/// `n` in decimal.
pub fn decimal_string(n: usize) -> (r: String)
    ensures
        r@ == decimal(n as nat),
    decreases n,
{
    proof {
        reveal_strlit("0123456789");
    }
    if n < 10 {
        String::from_str(DIGITS.substring_char(n, n + 1))
    } else {
        let mut s = decimal_string(n / 10);
        s.append(DIGITS.substring_char(n % 10, n % 10 + 1));
        s
    }
}

/// The line that reports how many changed locations the allow-list held back.
pub open spec fn notice_text(n: nat) -> Seq<char> {
    "Filtered "@ + decimal(n) + if n == 1 {
        " location."@
    } else {
        " locations."@
    }
}

/// The report of `n` held-back locations: none where `n` is zero, singular
/// for one, plural otherwise.
pub fn filtered_notice(n: usize) -> (r: Option<String>)
    ensures
        n == 0 ==> r is None,
        n > 0 ==> r is Some && r->0@ == notice_text(n as nat),
{
    if n == 0 {
        return None;
    }
    let mut s = String::from_str("Filtered ");
    let digits = decimal_string(n);
    s.append(digits.as_str());
    if n == 1 {
        s.append(" location.");
    } else {
        s.append(" locations.");
    }
    Some(s)
}

} // verus!
