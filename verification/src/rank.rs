use vstd::prelude::*;
use vstd::string::StrSliceExecFns;
use crate::graph::InfluenceEntry;

verus! {

/// Lexicographic order on titles, by Unicode code point: `a` comes before
/// `b` or equals it.
pub open spec fn lex_le(a: Seq<char>, b: Seq<char>) -> bool
    decreases a.len(),
{
    if a.len() == 0 {
        true
    } else if b.len() == 0 {
        false
    } else if a[0] as u32 == b[0] as u32 {
        lex_le(a.drop_first(), b.drop_first())
    } else {
        (a[0] as u32) < (b[0] as u32)
    }
}

/// The lexicographic order relates any two titles.
pub proof fn lemma_lex_le_total(a: Seq<char>, b: Seq<char>)
    ensures
        lex_le(a, b) || lex_le(b, a),
    decreases a.len(),
{
    if a.len() == 0 {
    } else if b.len() == 0 {
    } else if a[0] as u32 == b[0] as u32 {
        lemma_lex_le_total(a.drop_first(), b.drop_first());
    }
}

/// The lexicographic order is transitive.
pub proof fn lemma_lex_le_trans(a: Seq<char>, b: Seq<char>, c: Seq<char>)
    requires
        lex_le(a, b),
        lex_le(b, c),
    ensures
        lex_le(a, c),
    decreases a.len(),
{
    if a.len() == 0 {
    } else if b.len() == 0 {
    } else if c.len() == 0 {
    } else if a[0] as u32 == b[0] as u32 && b[0] as u32 == c[0] as u32 {
        lemma_lex_le_trans(a.drop_first(), b.drop_first(), c.drop_first());
    }
}

/// The view of one influence entry: its title's characters and its score.
pub open spec fn entry_view(e: InfluenceEntry) -> (Seq<char>, usize) {
    (e.title@, e.score)
}

/// The views of a sequence of influence entries.
pub open spec fn entry_views(s: Seq<InfluenceEntry>) -> Seq<(Seq<char>, usize)> {
    s.map_values(|e: InfluenceEntry| entry_view(e))
}

/// Ranking order: higher scores first, ties broken by title ascending.
pub open spec fn rank_le(a: (Seq<char>, usize), b: (Seq<char>, usize)) -> bool {
    a.1 > b.1 || (a.1 == b.1 && lex_le(a.0, b.0))
}

/// The ranking order relates any two entries.
pub proof fn lemma_rank_le_total(a: (Seq<char>, usize), b: (Seq<char>, usize))
    ensures
        rank_le(a, b) || rank_le(b, a),
{
    lemma_lex_le_total(a.0, b.0);
}

/// The ranking order is transitive.
pub proof fn lemma_rank_le_trans(a: (Seq<char>, usize), b: (Seq<char>, usize), c: (Seq<char>, usize))
    requires
        rank_le(a, b),
        rank_le(b, c),
    ensures
        rank_le(a, c),
{
    if a.1 == b.1 && b.1 == c.1 {
        lemma_lex_le_trans(a.0, b.0, c.0);
    }
}

/// Where the ranking places `x` in an already ranked sequence.
pub open spec fn insert_ranked(
    x: (Seq<char>, usize),
    s: Seq<(Seq<char>, usize)>,
) -> Seq<(Seq<char>, usize)>
    decreases s.len(),
{
    if s.len() == 0 {
        seq![x]
    } else if rank_le(x, s.first()) {
        seq![x] + s
    } else {
        seq![s.first()] + insert_ranked(x, s.drop_first())
    }
}

/// The ranked order of a sequence of entry views: entries inserted one by
/// one, first entry innermost, so that the result is sorted by the ranking
/// order with the earlier of two tied equal entries first.
pub open spec fn ranked(s: Seq<(Seq<char>, usize)>) -> Seq<(Seq<char>, usize)>
    decreases s.len(),
{
    if s.len() == 0 {
        Seq::empty()
    } else {
        insert_ranked(s.first(), ranked(s.drop_first()))
    }
}

/// Whether a sequence of entry views is in ranking order.
pub open spec fn rank_sorted(s: Seq<(Seq<char>, usize)>) -> bool {
    forall|i: int, j: int| 0 <= i < j < s.len() ==> rank_le(s[i], s[j])
}

/// Inserting into a ranked sequence keeps it ranked and adds exactly the
/// inserted entry.
pub proof fn lemma_insert_ranked_props(x: (Seq<char>, usize), s: Seq<(Seq<char>, usize)>)
    requires
        rank_sorted(s),
    ensures
        rank_sorted(insert_ranked(x, s)),
        insert_ranked(x, s).len() == s.len() + 1,
        insert_ranked(x, s).to_multiset() == s.to_multiset().insert(x),
    decreases s.len(),
{
    broadcast use vstd::seq_lib::group_to_multiset_ensures;
    broadcast use vstd::seq_lib::lemma_multiset_commutative;

    let r = insert_ranked(x, s);
    if s.len() == 0 {
        assert(r =~= Seq::<(Seq<char>, usize)>::empty().push(x));
        assert(s.to_multiset().insert(x) =~= r.to_multiset());
    } else if rank_le(x, s.first()) {
        assert(r == seq![x] + s);
        assert forall|i: int, j: int| 0 <= i < j < r.len() implies rank_le(r[i], r[j]) by {
            if i == 0 {
                if j >= 2 {
                    lemma_rank_le_trans(x, s[0], s[j - 1]);
                } else {
                    assert(rank_le(x, s[0]));
                }
            } else {
                assert(rank_le(s[i - 1], s[j - 1]));
            }
        }
        assert(seq![x] =~= Seq::<(Seq<char>, usize)>::empty().push(x));
        assert((seq![x] + s).to_multiset() == seq![x].to_multiset().add(s.to_multiset()));
        assert(r.to_multiset() =~= s.to_multiset().insert(x));
    } else {
        lemma_rank_le_total(x, s.first());
        assert(rank_le(s.first(), x));
        let rec = insert_ranked(x, s.drop_first());
        assert forall|i: int, j: int| 0 <= i < j < s.drop_first().len() implies
            rank_le(s.drop_first()[i], s.drop_first()[j]) by {
            assert(rank_le(s[i + 1], s[j + 1]));
        }
        lemma_insert_ranked_props(x, s.drop_first());
        assert(r == seq![s.first()] + rec);
        assert forall|i: int, j: int| 0 <= i < j < r.len() implies rank_le(r[i], r[j]) by {
            if i == 0 {
                let y = rec[j - 1];
                assert(rec.to_multiset().count(y) > 0);
                if y == x {
                    assert(rank_le(s.first(), y));
                } else {
                    assert(s.drop_first().to_multiset().count(y) > 0);
                    assert(s.drop_first().contains(y));
                    let jj = choose|jj: int|
                        0 <= jj < s.drop_first().len() && s.drop_first()[jj] == y;
                    assert(s[jj + 1] == y);
                    assert(rank_le(s[0], s[jj + 1]));
                }
            } else {
                assert(rank_le(rec[i - 1], rec[j - 1]));
            }
        }
        assert(seq![s.first()] =~= Seq::<(Seq<char>, usize)>::empty().push(s.first()));
        assert(r.to_multiset() == seq![s.first()].to_multiset().add(rec.to_multiset()));
        assert(s =~= seq![s.first()] + s.drop_first());
        assert(s.to_multiset() == seq![s.first()].to_multiset().add(s.drop_first().to_multiset()));
        assert(r.to_multiset() =~= s.to_multiset().insert(x));
    }
}

/// The ranked order of any sequence is sorted and is a permutation of it.
pub proof fn lemma_ranked_props(s: Seq<(Seq<char>, usize)>)
    ensures
        rank_sorted(ranked(s)),
        ranked(s).len() == s.len(),
        ranked(s).to_multiset() == s.to_multiset(),
    decreases s.len(),
{
    broadcast use vstd::seq_lib::group_to_multiset_ensures;
    broadcast use vstd::seq_lib::lemma_multiset_commutative;

    if s.len() == 0 {
    } else {
        lemma_ranked_props(s.drop_first());
        lemma_insert_ranked_props(s.first(), ranked(s.drop_first()));
        assert(seq![s.first()] =~= Seq::<(Seq<char>, usize)>::empty().push(s.first()));
        assert(s =~= seq![s.first()] + s.drop_first());
        assert(s.to_multiset() == seq![s.first()].to_multiset().add(s.drop_first().to_multiset()));
        assert(ranked(s).to_multiset() =~= s.to_multiset());
    }
}

/// Whether title `a` comes before title `b` (or equals it) in lexicographic
/// order by Unicode code point.
pub fn title_le(a: &str, b: &str) -> (r: bool)
    ensures
        r == lex_le(a@, b@),
{
    let alen = a.unicode_len();
    let blen = b.unicode_len();
    let mut i: usize = 0;
    assert(a@.skip(0) =~= a@);
    assert(b@.skip(0) =~= b@);
    while i < alen && i < blen
        invariant
            i <= alen,
            i <= blen,
            alen == a@.len(),
            blen == b@.len(),
            lex_le(a@, b@) == lex_le(a@.skip(i as int), b@.skip(i as int)),
        decreases alen - i,
    {
        let ca = a.get_char(i);
        let cb = b.get_char(i);
        proof {
            assert(a@.skip(i as int)[0] == a@[i as int]);
            assert(b@.skip(i as int)[0] == b@[i as int]);
            assert(a@.skip(i as int).drop_first() =~= a@.skip(i + 1));
            assert(b@.skip(i as int).drop_first() =~= b@.skip(i + 1));
        }
        if (ca as u32) < (cb as u32) {
            return true;
        } else if (ca as u32) > (cb as u32) {
            return false;
        }
        i = i + 1;
    }
    if i == alen {
        proof {
            assert(a@.skip(i as int).len() == 0);
        }
        true
    } else {
        proof {
            assert(a@.skip(i as int).len() > 0);
            assert(b@.skip(i as int).len() == 0);
        }
        false
    }
}

/// Whether `a` ranks before `b` or ties with it: higher score first, ties
/// broken by title ascending.
pub fn entry_ranks_le(a: &InfluenceEntry, b: &InfluenceEntry) -> (r: bool)
    ensures
        r == rank_le(entry_view(*a), entry_view(*b)),
{
    if a.score > b.score {
        true
    } else if a.score == b.score {
        title_le(a.title.as_str(), b.title.as_str())
    } else {
        false
    }
}

proof fn lemma_insert_ranked_at(x: (Seq<char>, usize), s: Seq<(Seq<char>, usize)>, j: int)
    requires
        0 <= j <= s.len(),
        forall|idx: int| 0 <= idx < j ==> !rank_le(x, s[idx]),
        j < s.len() ==> rank_le(x, s[j]),
    ensures
        insert_ranked(x, s) =~= s.take(j) + seq![x] + s.skip(j),
    decreases j,
{
    if j == 0 {
        if s.len() == 0 {
            assert(insert_ranked(x, s) =~= s.take(0) + seq![x] + s.skip(0));
        } else {
            assert(rank_le(x, s.first()));
            assert(insert_ranked(x, s) == seq![x] + s);
            assert(seq![x] + s =~= s.take(0) + seq![x] + s.skip(0));
        }
    } else {
        assert(!rank_le(x, s[0]));
        let d = s.drop_first();
        assert forall|idx: int| 0 <= idx < j - 1 implies !rank_le(x, d[idx]) by {
            assert(d[idx] == s[idx + 1]);
        }
        assert(j - 1 < d.len() ==> rank_le(x, d[j - 1]));
        lemma_insert_ranked_at(x, d, j - 1);
        assert(insert_ranked(x, s) == seq![s.first()] + insert_ranked(x, d));
        assert(seq![s.first()] + (d.take(j - 1) + seq![x] + d.skip(j - 1))
            =~= s.take(j) + seq![x] + s.skip(j));
    }
}

/// Sorts the influence entries into ranking order: scores descending, ties
/// broken by title ascending. The result holds the same entries, reordered.
pub fn rank_entries(entries: Vec<InfluenceEntry>) -> (r: Vec<InfluenceEntry>)
    ensures
        entry_views(r@) == ranked(entry_views(entries@)),
        r@.to_multiset() == entries@.to_multiset(),
        r@.len() == entries@.len(),
        rank_sorted(entry_views(r@)),
{
    broadcast use vstd::seq_lib::group_to_multiset_ensures;
    broadcast use vstd::seq_lib::lemma_multiset_commutative;

    let ghost orig = entries@;
    let ghost origv = entry_views(entries@);
    let mut src = entries;
    let mut out: Vec<InfluenceEntry> = Vec::new();
    proof {
        assert(orig.skip(orig.len() as int) =~= Seq::<InfluenceEntry>::empty());
        assert(origv.skip(origv.len() as int) =~= Seq::<(Seq<char>, usize)>::empty());
        assert(entry_views(out@) =~= ranked(origv.skip(origv.len() as int)));
    }
    while src.len() > 0
        invariant
            src@ =~= orig.take(src@.len() as int),
            origv == entry_views(orig),
            origv.len() == orig.len(),
            entry_views(out@) == ranked(origv.skip(src@.len() as int)),
            out@.to_multiset() == orig.skip(src@.len() as int).to_multiset(),
            out@.len() + src@.len() == orig.len(),
            rank_sorted(entry_views(out@)),
        decreases src.len(),
    {
        broadcast use vstd::seq_lib::group_to_multiset_ensures;
        broadcast use vstd::seq_lib::lemma_multiset_commutative;

        let ghost oldlen = src@.len() as int;
        let x = src.pop().unwrap();
        let ghost xv = entry_view(x);
        proof {
            assert(x == orig[oldlen - 1]);
            assert(xv == origv[oldlen - 1]);
            assert(src@ =~= orig.take(oldlen - 1));
        }
        let mut j: usize = 0;
        let n = out.len();
        while j < n && !entry_ranks_le(&x, &out[j])
            invariant
                j <= n,
                n == out@.len(),
                forall|idx: int| 0 <= idx < j ==> !rank_le(
                    xv,
                    #[trigger] entry_views(out@)[idx],
                ),
                xv == entry_view(x),
            decreases n - j,
        {
            assert(entry_views(out@)[j as int] == entry_view(out@[j as int]));
            j = j + 1;
        }
        let ghost oldout = out@;
        let ghost oldoutv = entry_views(out@);
        proof {
            if j < n {
                assert(entry_views(out@)[j as int] == entry_view(out@[j as int]));
                assert(rank_le(xv, oldoutv[j as int]));
            }
        }
        out.insert(j, x);
        proof {
            lemma_insert_ranked_at(xv, oldoutv, j as int);
            assert(out@ =~= oldout.take(j as int) + seq![x] + oldout.skip(j as int));
            assert(entry_views(out@) =~= oldoutv.take(j as int) + seq![xv] + oldoutv.skip(j as int));
            assert(entry_views(out@) =~= insert_ranked(xv, oldoutv));
            assert forall|i: int, jj: int| 0 <= i < jj < oldoutv.len() implies
                rank_le(oldoutv[i], oldoutv[jj]) by {}
            lemma_insert_ranked_props(xv, oldoutv);
            let skipv = origv.skip(oldlen);
            assert(origv.skip(oldlen - 1).first() == xv);
            assert(origv.skip(oldlen - 1).drop_first() =~= skipv);
            assert(ranked(origv.skip(oldlen - 1)) == insert_ranked(xv, ranked(skipv)));
            assert(entry_views(out@) == ranked(origv.skip(oldlen - 1)));
            // the multiset of the held entries gains exactly x
            assert(oldout.take(j as int) + seq![x] + oldout.skip(j as int)
                =~= (oldout.take(j as int) + seq![x]) + oldout.skip(j as int));
            assert(out@.to_multiset() =~= oldout.to_multiset().insert(x));
            assert(orig.skip(oldlen - 1) =~= seq![x] + orig.skip(oldlen));
            assert(orig.skip(oldlen - 1).to_multiset() =~= orig.skip(oldlen).to_multiset().insert(x));
        }
    }
    proof {
        assert(orig.skip(0) =~= orig);
        assert(origv.skip(0) =~= origv);
    }
    out
}

} // verus!
