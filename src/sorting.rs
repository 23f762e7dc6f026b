use vstd::prelude::*;

use crate::model::{procs_view, Process, ProcessView, SortField};
use crate::text::{chars_of, lex_less, lex_lt, lemma_lex_lt_asymmetric, lower_of, lowercase};

verus! {

broadcast use vstd::seq_lib::to_multiset_update;

/// `a` goes strictly before `b` in the order of `field`: names ascend
/// ignoring case, pids ascend, counts, bytes and rates descend.
pub open spec fn goes_before(field: SortField, a: ProcessView, b: ProcessView) -> bool {
    match field {
        SortField::Name => lex_lt(lower_of(a.name), lower_of(b.name)),
        SortField::Pid => a.pid < b.pid,
        SortField::Connections => a.connections.len() > b.connections.len(),
        SortField::BytesIn => a.bytes_in > b.bytes_in,
        SortField::BytesOut => a.bytes_out > b.bytes_out,
        SortField::RateIn => a.rate_in > b.rate_in,
        SortField::RateOut => a.rate_out > b.rate_out,
    }
}

pub proof fn lemma_goes_before_asymmetric(field: SortField, a: ProcessView, b: ProcessView)
    ensures
        goes_before(field, a, b) ==> !goes_before(field, b, a),
{
    lemma_lex_lt_asymmetric(lower_of(a.name), lower_of(b.name));
}

/// No neighbour in `s` is out of the order of `field`.
pub open spec fn sorted_by(field: SortField, s: Seq<Process>) -> bool {
    forall|k: int| 0 <= k < s.len() - 1 ==> !goes_before(field, (#[trigger] s[k + 1])@, s[k]@)
}

/// Exchanges `v[i - 1]` and `v[i]`.
fn swap_down<T>(v: &mut Vec<T>, i: usize, filler: T)
    requires
        0 < i < old(v)@.len(),
    ensures
        final(v)@ == old(v)@.update(i as int, old(v)@[i - 1]).update(i - 1, old(v)@[i as int]),
{
    let mut tmp = filler;
    v.set_and_swap(i, &mut tmp);
    v.set_and_swap(i - 1, &mut tmp);
    v.set(i, tmp);
}

/// Whether `ps[a]` goes strictly before `ps[b]`; `names` holds the
/// lower-case names.
fn before_at(field: SortField, ps: &Vec<Process>, names: &Vec<Vec<char>>, a: usize, b: usize) -> (r: bool)
    requires
        a < ps@.len(),
        b < ps@.len(),
        names@.len() == ps@.len(),
        forall|k: int| 0 <= k < ps@.len() ==> (#[trigger] names@[k])@ == lower_of(ps@[k].name@),
    ensures
        r == goes_before(field, ps@[a as int]@, ps@[b as int]@),
{
    match field {
        SortField::Name => lex_less(&names[a], &names[b]),
        SortField::Pid => ps[a].pid < ps[b].pid,
        SortField::Connections => ps[a].connections.len() > ps[b].connections.len(),
        SortField::BytesIn => ps[a].bytes_in > ps[b].bytes_in,
        SortField::BytesOut => ps[a].bytes_out > ps[b].bytes_out,
        SortField::RateIn => ps[a].rate_in > ps[b].rate_in,
        SortField::RateOut => ps[a].rate_out > ps[b].rate_out,
    }
}

proof fn lemma_swap_multiset<T>(s: Seq<T>, i: int)
    requires
        0 < i < s.len(),
    ensures
        s.update(i, s[i - 1]).update(i - 1, s[i]).to_multiset() == s.to_multiset(),
{
    broadcast use vstd::multiset::group_multiset_axioms;

    let t = s.update(i, s[i - 1]);
    let m = s.to_multiset();
    let m1 = m.insert(s[i - 1]);
    let m2 = m1.remove(s[i]);
    assert(t[i - 1] == s[i - 1]);
    assert(t.to_multiset() == m2);
    assert(t.update(i - 1, s[i]).to_multiset() == m2.insert(s[i]).remove(s[i - 1]));
    vstd::seq_lib::to_multiset_contains(s, s[i]);
    assert(s.contains(s[i]));
    assert(m2.insert(s[i]) =~= m1);
    assert(m1.remove(s[i - 1]) =~= m);
}

/// Sorts `ps` by `field` (a stable insertion sort): the result holds the
/// same processes, and no neighbour is out of order.
pub fn sort_by_field(field: SortField, ps: &mut Vec<Process>)
    ensures
        final(ps)@.to_multiset() == old(ps)@.to_multiset(),
        procs_view(final(ps)@).to_multiset() == procs_view(old(ps)@).to_multiset(),
        final(ps)@.len() == old(ps)@.len(),
        sorted_by(field, final(ps)@),
{
    let n = ps.len();
    let mut names: Vec<Vec<char>> = Vec::new();
    let mut k: usize = 0;
    while k < n
        invariant
            n == ps@.len(),
            k <= n,
            names@.len() == k,
            forall|j: int| 0 <= j < k ==> (#[trigger] names@[j])@ == lower_of(ps@[j].name@),
        decreases n - k,
    {
        let low = lowercase(ps[k].name.as_str());
        names.push(chars_of(low.as_str()));
        k = k + 1;
    }
    let ghost orig = ps@;
    let mut i: usize = 1;
    while i < n
        invariant
            n == ps@.len(),
            1 <= i || n == 0,
            names@.len() == n,
            forall|j: int| 0 <= j < n ==> (#[trigger] names@[j])@ == lower_of(ps@[j].name@),
            ps@.to_multiset() == orig.to_multiset(),
            procs_view(ps@).to_multiset() == procs_view(orig).to_multiset(),
            forall|q: int| 0 <= q < i - 1 && q < n - 1 ==> !goes_before(
                field,
                (#[trigger] ps@[q + 1])@,
                ps@[q]@,
            ),
        decreases n - i,
    {
        let mut j = i;
        while j > 0 && before_at(field, ps, &names, j, j - 1)
            invariant
                n == ps@.len(),
                0 <= j <= i < n,
                names@.len() == n,
                forall|t: int| 0 <= t < n ==> (#[trigger] names@[t])@ == lower_of(ps@[t].name@),
                ps@.to_multiset() == orig.to_multiset(),
                procs_view(ps@).to_multiset() == procs_view(orig).to_multiset(),
                forall|q: int| 0 <= q < j - 1 ==> !goes_before(field, (#[trigger] ps@[q + 1])@, ps@[q]@),
                forall|q: int| j <= q < i ==> !goes_before(field, (#[trigger] ps@[q + 1])@, ps@[q]@),
                0 < j < i ==> !goes_before(field, ps@[j + 1]@, ps@[j - 1]@),
            decreases j,
        {
            let ghost s = ps@;
            proof {
                lemma_goes_before_asymmetric(field, s[j as int]@, s[j - 1]@);
                lemma_swap_multiset(s, j as int);
                lemma_swap_multiset(procs_view(s), j as int);
                if j >= 2 {
                    let q = j - 2;
                    assert(!goes_before(field, ps@[q + 1]@, ps@[q]@));
                }
            }
            swap_down(ps, j, crate::model::blank_process());
            swap_down(&mut names, j, Vec::new());
            assert(procs_view(ps@) =~= procs_view(s).update(j as int, procs_view(s)[j - 1]).update(
                j - 1,
                procs_view(s)[j as int],
            ));
            assert forall|q: int| j - 1 <= q < i implies !goes_before(
                field,
                (#[trigger] ps@[q + 1])@,
                ps@[q]@,
            ) by {
                if q == j {
                    assert(ps@[q + 1] == s[q + 1]);
                }
                if q > j {
                    assert(ps@[q + 1] == s[q + 1] && ps@[q] == s[q]);
                }
            }
            j = j - 1;
        }
        i = i + 1;
    }
}

proof fn lemma_chain(s: Seq<int>)
    requires
        forall|k: int| 0 <= k < s.len() - 1 ==> s[k] <= #[trigger] s[k + 1],
    ensures
        forall|i: int, j: int| 0 <= i <= j < s.len() ==> s[i] <= s[j],
    decreases s.len(),
{
    if s.len() > 0 {
        let t = s.drop_last();
        assert forall|k: int| 0 <= k < t.len() - 1 implies t[k] <= #[trigger] t[k + 1] by {
            assert(s[k + 1] == t[k + 1]);
        }
        lemma_chain(t);
        assert forall|i: int, j: int| 0 <= i <= j < s.len() implies s[i] <= s[j] by {
            if j == s.len() - 1 && i < j {
                assert(t[i] <= t[j - 1]);
                assert(s[j - 1] <= s[(j - 1) + 1]);
            } else if j < s.len() - 1 {
                assert(t[i] <= t[j]);
            }
        }
    }
}

/// Order of a list sorted by `field`: by a count, byte or rate field the
/// values never increase along the list; by pid they never decrease; by
/// name the lower-case names never decrease.
pub proof fn lemma_sorted_order(field: SortField, s: Seq<Process>)
    requires
        sorted_by(field, s),
    ensures
        field == SortField::Pid ==> forall|i: int, j: int|
            0 <= i <= j < s.len() ==> s[i].pid <= s[j].pid,
        field == SortField::Connections ==> forall|i: int, j: int|
            0 <= i <= j < s.len() ==> s[j].connections@.len() <= s[i].connections@.len(),
        field == SortField::BytesIn ==> forall|i: int, j: int|
            0 <= i <= j < s.len() ==> s[j].bytes_in <= s[i].bytes_in,
        field == SortField::BytesOut ==> forall|i: int, j: int|
            0 <= i <= j < s.len() ==> s[j].bytes_out <= s[i].bytes_out,
        field == SortField::RateIn ==> forall|i: int, j: int|
            0 <= i <= j < s.len() ==> s[j].rate_in <= s[i].rate_in,
        field == SortField::RateOut ==> forall|i: int, j: int|
            0 <= i <= j < s.len() ==> s[j].rate_out <= s[i].rate_out,
        field == SortField::Name ==> forall|k: int|
            0 <= k < s.len() - 1 ==> !lex_lt(lower_of((#[trigger] s[k + 1]).name@), lower_of(s[k].name@)),
{
    let key = |p: Process|
        match field {
            SortField::Pid => p.pid as int,
            SortField::Connections => -(p.connections@.len() as int),
            SortField::BytesIn => -(p.bytes_in as int),
            SortField::BytesOut => -(p.bytes_out as int),
            SortField::RateIn => -(p.rate_in as int),
            SortField::RateOut => -(p.rate_out as int),
            SortField::Name => 0int,
        };
    let ks = s.map_values(key);
    assert forall|k: int| 0 <= k < ks.len() - 1 implies ks[k] <= #[trigger] ks[k + 1] by {
        assert(!goes_before(field, s[k + 1]@, s[k]@));
    }
    lemma_chain(ks);
    assert forall|i: int, j: int| 0 <= i <= j < s.len() implies key(s[i]) <= key(s[j]) by {
        assert(ks[i] <= ks[j]);
    }
}

} // verus!
