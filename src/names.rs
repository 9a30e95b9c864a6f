use vstd::prelude::*;
use vstd::seq_lib::{to_multiset_build, to_multiset_insert};
use vstd::multiset::group_multiset_axioms;

verus! {

/// The byte that marks a hidden entry when it starts the name.
pub const DOT: u8 = 0x2e;

/// A name is shown unless its first byte is a dot; an empty name is shown.
pub open spec fn visible(name: Seq<u8>) -> bool {
    name.len() == 0 || name[0] != DOT
}

/// Strict byte-wise lexicographic order: a proper prefix comes first.
pub open spec fn lex_lt(a: Seq<u8>, b: Seq<u8>) -> bool
    decreases a.len(),
{
    if b.len() == 0 {
        false
    } else if a.len() == 0 {
        true
    } else if a[0] != b[0] {
        a[0] < b[0]
    } else {
        lex_lt(a.drop_first(), b.drop_first())
    }
}

/// Every name is ordered no later than each one after it.
pub open spec fn sorted(s: Seq<Seq<u8>>) -> bool {
    forall|i: int, j: int| 0 <= i < j < s.len() ==> !lex_lt(#[trigger] s[j], #[trigger] s[i])
}

/// The names held by a vector of byte strings.
pub open spec fn names_view(v: Seq<Vec<u8>>) -> Seq<Seq<u8>> {
    v.map_values(|n: Vec<u8>| n@)
}

/// The names of `s` that are shown, in their order.
pub open spec fn visible_only(s: Seq<Seq<u8>>) -> Seq<Seq<u8>> {
    s.filter(|n: Seq<u8>| visible(n))
}

/// The byte-wise order is transitive.
pub proof fn lemma_lex_lt_transitive(a: Seq<u8>, b: Seq<u8>, c: Seq<u8>)
    requires
        lex_lt(a, b),
        lex_lt(b, c),
    ensures
        lex_lt(a, c),
    decreases a.len(),
{
    if a.len() > 0 && a[0] == b[0] && b[0] == c[0] {
        lemma_lex_lt_transitive(a.drop_first(), b.drop_first(), c.drop_first());
    }
}

/// The byte-wise order is irreflexive.
pub proof fn lemma_lex_lt_irreflexive(a: Seq<u8>)
    ensures
        !lex_lt(a, a),
    decreases a.len(),
{
    if a.len() > 0 {
        lemma_lex_lt_irreflexive(a.drop_first());
    }
}

/// Whether name `a` comes strictly before name `b` byte by byte.
pub fn name_lt(a: &Vec<u8>, b: &Vec<u8>) -> (r: bool)
    ensures
        r == lex_lt(a@, b@),
{
    let mut i: usize = 0;
    assert(a@.skip(0) =~= a@ && b@.skip(0) =~= b@);
    while i < a.len() && i < b.len() && a[i] == b[i]
        invariant
            i <= a@.len(),
            i <= b@.len(),
            lex_lt(a@, b@) == lex_lt(a@.skip(i as int), b@.skip(i as int)),
        decreases a@.len() - i,
    {
        assert(a@.skip(i as int).drop_first() =~= a@.skip(i + 1));
        assert(b@.skip(i as int).drop_first() =~= b@.skip(i + 1));
        i = i + 1;
    }
    if i == b.len() {
        false
    } else if i == a.len() {
        true
    } else {
        a[i] < b[i]
    }
}

/// Whether a name is shown in a listing.
pub fn is_visible(name: &Vec<u8>) -> (r: bool)
    ensures
        r == visible(name@),
{
    name.len() == 0 || name[0] != DOT
}

/// The entries of a directory, ordered by their names' bytes.
pub fn read_dir_sorted(entries: Vec<Vec<u8>>) -> (r: Vec<Vec<u8>>)
    ensures
        sorted(names_view(r@)),
        names_view(r@).to_multiset() == names_view(entries@).to_multiset(),
{
    let mut out: Vec<Vec<u8>> = Vec::new();
    let mut k: usize = 0;
    assert(names_view(out@) =~= names_view(entries@).take(0));
    while k < entries.len()
        invariant
            k <= entries@.len(),
            sorted(names_view(out@)),
            names_view(out@).to_multiset() == names_view(entries@).take(k as int).to_multiset(),
        decreases entries@.len() - k,
    {
        let x = entries[k].clone();
        assert(x@ =~= entries@[k as int]@);
        let mut p: usize = 0;
        while p < out.len() && !name_lt(&x, &out[p])
            invariant
                p <= out@.len(),
                k < entries@.len(),
                x@ == names_view(entries@)[k as int],
                forall|j: int| 0 <= j < p ==> !lex_lt(x@, #[trigger] names_view(out@)[j]),
            decreases out@.len() - p,
        {
            p = p + 1;
        }
        let ghost before = names_view(out@);
        assert(p < before.len() ==> lex_lt(x@, before[p as int]));
        out.insert(p, x);
        proof {
            let after = names_view(out@);
            assert(after =~= before.insert(p as int, x@));
            assert forall|i: int, j: int| 0 <= i < j < after.len() implies !lex_lt(
                #[trigger] after[j],
                #[trigger] after[i],
            ) by {
                if j == p && i < p {
                    assert(after[i] == before[i]);
                } else if i == p && j > p {
                    assert(after[j] == before[j - 1]);
                    if lex_lt(after[j], x@) {
                        assert(p < before.len());
                        if j - 1 > p {
                            assert(!lex_lt(before[j - 1], before[p as int]));
                        }
                        lemma_lex_lt_transitive(before[j - 1], x@, before[p as int]);
                        lemma_lex_lt_irreflexive(before[p as int]);
                    }
                } else if i < p && j < p {
                    assert(after[i] == before[i] && after[j] == before[j]);
                } else if i < p {
                    assert(after[i] == before[i] && after[j] == before[j - 1]);
                } else {
                    assert(after[i] == before[i - 1] && after[j] == before[j - 1]);
                }
            }
            to_multiset_insert(before, p as int, x@);
            assert(names_view(entries@).take(k + 1) =~= names_view(entries@).take(k as int).push(
                x@,
            ));
            to_multiset_build(names_view(entries@).take(k as int), x@);
        }
        k = k + 1;
    }
    assert(names_view(entries@).take(k as int) =~= names_view(entries@));
    out
}

/// The entries whose names are shown, in their order.
pub fn filter_invisible(entries: Vec<Vec<u8>>) -> (r: Vec<Vec<u8>>)
    ensures
        names_view(r@) == visible_only(names_view(entries@)),
{
    let mut out: Vec<Vec<u8>> = Vec::new();
    let mut k: usize = 0;
    assert(names_view(out@) =~= names_view(entries@).take(0));
    while k < entries.len()
        invariant
            k <= entries@.len(),
            names_view(out@) == visible_only(names_view(entries@).take(k as int)),
        decreases entries@.len() - k,
    {
        let ghost pre = names_view(entries@).take(k as int);
        proof {
            assert(names_view(entries@).take(k + 1) =~= pre.push(names_view(entries@)[k as int]));
            pre.lemma_filter_push(names_view(entries@)[k as int], |n: Seq<u8>| visible(n));
        }
        if is_visible(&entries[k]) {
            let x = entries[k].clone();
            assert(x@ =~= entries@[k as int]@);
            let ghost before = names_view(out@);
            out.push(x);
            assert(names_view(out@) =~= before.push(x@));
        }
        k = k + 1;
    }
    assert(names_view(entries@).take(k as int) =~= names_view(entries@));
    out
}

/// Dropping the hidden names keeps each shown name as often as it occurs.
pub proof fn lemma_visible_only_counts(s: Seq<Seq<u8>>, x: Seq<u8>)
    ensures
        visible_only(s).to_multiset().count(x) == if visible(x) {
            s.to_multiset().count(x)
        } else {
            0
        },
    decreases s.len(),
{
    broadcast use group_multiset_axioms;

    if s.len() == 0 {
        reveal(Seq::filter);
        s.to_multiset_ensures();
        assert(!s.contains(x));
    } else {
        let pre = s.drop_last();
        lemma_visible_only_counts(pre, x);
        assert(s =~= pre.push(s.last()));
        pre.lemma_filter_push(s.last(), |n: Seq<u8>| visible(n));
        to_multiset_build(pre, s.last());
        if visible(s.last()) {
            to_multiset_build(visible_only(pre), s.last());
        }
    }
}

/// Dropping the hidden names keeps a sorted sequence sorted.
pub proof fn lemma_visible_only_sorted(s: Seq<Seq<u8>>)
    requires
        sorted(s),
    ensures
        sorted(visible_only(s)),
    decreases s.len(),
{
    if s.len() == 0 {
        reveal(Seq::filter);
    } else {
        let pre = s.drop_last();
        let l = s.last();
        assert(sorted(pre)) by {
            assert forall|i: int, j: int| 0 <= i < j < pre.len() implies !lex_lt(
                #[trigger] pre[j],
                #[trigger] pre[i],
            ) by {
                assert(pre[i] == s[i] && pre[j] == s[j]);
            }
        }
        lemma_visible_only_sorted(pre);
        assert(s =~= pre.push(l));
        pre.lemma_filter_push(l, |n: Seq<u8>| visible(n));
        if visible(l) {
            let f = visible_only(pre);
            let g = f.push(l);
            assert forall|i: int, j: int| 0 <= i < j < g.len() implies !lex_lt(
                #[trigger] g[j],
                #[trigger] g[i],
            ) by {
                if j == g.len() - 1 {
                    assert(f.contains(g[i]));
                    pre.lemma_filter_contains_rev(|n: Seq<u8>| visible(n), g[i]);
                    let m = choose|m: int| 0 <= m < pre.len() && pre[m] == g[i];
                    assert(s[m] == pre[m] && s[s.len() - 1] == l);
                } else {
                    assert(g[i] == f[i] && g[j] == f[j]);
                }
            }
        }
    }
}

/// Listing a directory: once its entries are sorted and the hidden ones are
/// dropped, what is left is in byte order, holds no hidden name, and holds
/// each shown name exactly as often as the directory does (once, as names in
/// a directory are unique).
pub proof fn lemma_listing(entries: Seq<Seq<u8>>, sorted_entries: Seq<Seq<u8>>)
    requires
        sorted(sorted_entries),
        sorted_entries.to_multiset() == entries.to_multiset(),
    ensures
        sorted(visible_only(sorted_entries)),
        forall|i: int|
            0 <= i < visible_only(sorted_entries).len() ==> visible(
                #[trigger] visible_only(sorted_entries)[i],
            ),
        forall|x: Seq<u8>|
            #[trigger] visible_only(sorted_entries).to_multiset().count(x) == if visible(x) {
                entries.to_multiset().count(x)
            } else {
                0
            },
{
    lemma_visible_only_sorted(sorted_entries);
    assert forall|i: int| 0 <= i < visible_only(sorted_entries).len() implies visible(
        #[trigger] visible_only(sorted_entries)[i],
    ) by {
        sorted_entries.lemma_filter_pred(|n: Seq<u8>| visible(n), i);
    }
    assert forall|x: Seq<u8>|
        #[trigger] visible_only(sorted_entries).to_multiset().count(x) == if visible(x) {
            entries.to_multiset().count(x)
        } else {
            0
        } by {
        lemma_visible_only_counts(sorted_entries, x);
    }
}

} // verus!
