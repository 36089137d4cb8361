use vstd::prelude::*;

verus! {

/// One catalog record: a title and its genre set, kept as a duplicate-free
/// list of genre names. Titles are assumed unique across a record set;
/// duplicate titles are the caller's defect.
pub struct Item {
    pub title: String,
    pub genres: Vec<String>,
}

impl Item {
    /// The genre set of this item, as a sequence of character sequences.
    pub open spec fn genres_view(&self) -> Seq<Seq<char>> {
        self.genres.deep_view()
    }

    /// Well-formed items carry set semantics: no genre occurs twice.
    pub open spec fn wf(&self) -> bool {
        self.genres_view().no_duplicates()
    }

    /// Builds an item from a raw genre list, dropping duplicate genres so
    /// that the stored list has set semantics.
    pub fn new(title: String, genres: Vec<String>) -> (r: Item)
        ensures
            r.wf(),
            r.title@ == title@,
            forall|g: Seq<char>| r.genres_view().contains(g) <==> genres.deep_view().contains(g),
    {
        let mut kept: Vec<String> = Vec::new();
        let mut i: usize = 0;
        while i < genres.len()
            invariant
                i <= genres.len(),
                kept.deep_view().no_duplicates(),
                forall|g: Seq<char>|
                    #![trigger kept.deep_view().contains(g)]
                    #![trigger genres.deep_view().take(i as int).contains(g)]
                    kept.deep_view().contains(g) <==> genres.deep_view().take(i as int).contains(g),
            decreases genres.len() - i,
        {
            let ghost prev_kept = kept.deep_view();
            let ghost gi = genres.deep_view()[i as int];
            let g = genres[i].clone();
            let dup = contains_genre(&kept, &g);
            if !dup {
                kept.push(g);
                proof {
                    assert(kept.deep_view() =~= prev_kept.push(gi));
                    assert forall|g2: Seq<char>| #[trigger] kept.deep_view().contains(g2) implies
                        prev_kept.contains(g2) || g2 == gi by {
                        let j = choose|j: int|
                            0 <= j < kept.deep_view().len() && kept.deep_view()[j] == g2;
                        if j < prev_kept.len() {
                            assert(prev_kept[j] == g2);
                        }
                    }
                    assert forall|j1: int, j2: int|
                        0 <= j1 < j2 < kept.deep_view().len() implies
                        kept.deep_view()[j1] != kept.deep_view()[j2] by {
                        if j2 == prev_kept.len() {
                            assert(prev_kept[j1] == kept.deep_view()[j1]);
                            assert(!prev_kept.contains(gi));
                        }
                    }
                }
            }
            proof {
                let prev = genres.deep_view().take(i as int);
                let cur = genres.deep_view().take(i + 1);
                assert forall|g2: Seq<char>| #[trigger] kept.deep_view().contains(g2) implies
                    cur.contains(g2) by {
                    let j = choose|j: int|
                        0 <= j < kept.deep_view().len() && kept.deep_view()[j] == g2;
                    if dup || j < prev_kept.len() {
                        assert(prev_kept[j] == g2);
                        assert(prev_kept.contains(g2));
                        let j2 = choose|j2: int| 0 <= j2 < prev.len() && prev[j2] == g2;
                        assert(cur[j2] == g2);
                    } else {
                        assert(g2 == gi);
                        assert(cur[i as int] == g2);
                    }
                }
                assert forall|g2: Seq<char>| #[trigger] cur.contains(g2) implies
                    kept.deep_view().contains(g2) by {
                    let j = choose|j: int| 0 <= j < cur.len() && cur[j] == g2;
                    if j < i {
                        assert(prev[j] == g2);
                        assert(prev.contains(g2));
                        assert(prev_kept.contains(g2));
                        let j2 = choose|j2: int|
                            0 <= j2 < prev_kept.len() && prev_kept[j2] == g2;
                        assert(kept.deep_view()[j2] == g2);
                    } else {
                        assert(g2 == gi);
                        if dup {
                            assert(kept.deep_view().contains(gi));
                        } else {
                            assert(kept.deep_view()[prev_kept.len() as int] == gi);
                        }
                    }
                }
            }
            i = i + 1;
        }
        proof {
            assert(genres.deep_view().take(genres.len() as int) =~= genres.deep_view());
        }
        Item { title, genres: kept }
    }
}

/// Whether `g` occurs in the genre list `gs`.
pub fn contains_genre(gs: &Vec<String>, g: &String) -> (r: bool)
    ensures
        r == gs.deep_view().contains(g@),
{
    let mut i: usize = 0;
    while i < gs.len()
        invariant
            i <= gs.len(),
            forall|j: int| 0 <= j < i ==> gs.deep_view()[j] != g@,
        decreases gs.len() - i,
    {
        if gs[i].eq(g) {
            assert(gs.deep_view()[i as int] == g@);
            return true;
        }
        i = i + 1;
    }
    false
}

/// The number of genres of `a` that also occur in `b`: the size of the
/// genre-set intersection whenever `a` has no duplicates.
pub open spec fn shared_genre_count(a: Seq<Seq<char>>, b: Seq<Seq<char>>) -> nat
    decreases a.len(),
{
    if a.len() == 0 {
        0
    } else {
        shared_genre_count(a.drop_last(), b) + if b.contains(a.last()) {
            1nat
        } else {
            0nat
        }
    }
}

/// Whether the two genre sets have a non-empty intersection.
pub open spec fn genres_intersect(a: Seq<Seq<char>>, b: Seq<Seq<char>>) -> bool {
    exists|i: int, j: int| 0 <= i < a.len() && 0 <= j < b.len() && a[i] == b[j]
}

/// The shared-genre count is positive exactly when the genre sets intersect.
pub proof fn lemma_shared_count_pos(a: Seq<Seq<char>>, b: Seq<Seq<char>>)
    ensures
        shared_genre_count(a, b) > 0 <==> genres_intersect(a, b),
    decreases a.len(),
{
    if a.len() == 0 {
    } else {
        let pre = a.drop_last();
        lemma_shared_count_pos(pre, b);
        if shared_genre_count(a, b) > 0 {
            if b.contains(a.last()) {
                let j = choose|j: int| 0 <= j < b.len() && b[j] == a.last();
                assert(a[a.len() - 1] == b[j]);
            } else {
                let (i, j) = choose|i: int, j: int|
                    0 <= i < pre.len() && 0 <= j < b.len() && pre[i] == b[j];
                assert(a[i] == b[j]);
            }
        }
        if genres_intersect(a, b) {
            let (i, j) = choose|i: int, j: int|
                0 <= i < a.len() && 0 <= j < b.len() && a[i] == b[j];
            if i == a.len() - 1 {
                assert(b.contains(a.last()));
            } else {
                assert(pre[i] == b[j]);
            }
        }
    }
}

/// Counts the genres of `a` that also occur in `b`.
pub fn count_shared_genres(a: &Vec<String>, b: &Vec<String>) -> (r: usize)
    ensures
        r == shared_genre_count(a.deep_view(), b.deep_view()),
{
    let mut r: usize = 0;
    let mut i: usize = 0;
    while i < a.len()
        invariant
            i <= a.len(),
            r <= i,
            r == shared_genre_count(a.deep_view().take(i as int), b.deep_view()),
        decreases a.len() - i,
    {
        proof {
            let cur = a.deep_view().take(i + 1);
            assert(cur.drop_last() =~= a.deep_view().take(i as int));
            assert(cur.last() == a.deep_view()[i as int]);
        }
        if contains_genre(b, &a[i]) {
            r = r + 1;
        }
        i = i + 1;
    }
    proof {
        assert(a.deep_view().take(a.len() as int) =~= a.deep_view());
    }
    r
}

} // verus!
