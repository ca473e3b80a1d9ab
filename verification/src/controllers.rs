//! What the web pages compute.

use vstd::prelude::*;
use vstd::string::*;

verus! {

/// The greeting of the front page for the stored name `name`.
pub fn greeting(name: &str) -> (r: String)
    ensures
        r@ == "Hello, world! "@ + name@ + " specifically"@,
{
    let mut g = String::from_str("Hello, world! ");
    g.append(name);
    g.append(" specifically");
    g
}

/// `s` with each run of equal adjacent entries cut down to one entry.
pub open spec fn dedup_adjacent(s: Seq<Seq<char>>) -> Seq<Seq<char>>
    decreases s.len(),
{
    if s.len() <= 1 {
        s
    } else if s.last() == s[s.len() - 2] {
        dedup_adjacent(s.drop_last())
    } else {
        dedup_adjacent(s.drop_last()).push(s.last())
    }
}

/// The project names of the front page's list: `names` with each run of
/// equal adjacent names cut down to one.
pub fn dedup_names(names: Vec<String>) -> (r: Vec<String>)
    ensures
        r.len() == dedup_adjacent(names@.map_values(|s: String| s@)).len(),
        forall|j: int| 0 <= j < r.len() ==> #[trigger] r[j]@ == dedup_adjacent(names@.map_values(|s: String| s@))[j],
{
    let ghost views = names@.map_values(|s: String| s@);
    let n = names.len();
    let mut out: Vec<String> = Vec::new();
    let mut i: usize = 0;
    while i < n
        invariant
            n == names.len(),
            views == names@.map_values(|s: String| s@),
            i <= n,
            out.len() == dedup_adjacent(views.take(i as int)).len(),
            forall|j: int| 0 <= j < out.len() ==> #[trigger] out[j]@ == dedup_adjacent(views.take(i as int))[j],
            i > 0 ==> out.len() > 0 && out[out.len() - 1]@ == views[i - 1],
        decreases n - i,
    {
        let ghost prev = views.take(i as int);
        let ghost next = views.take(i + 1);
        assert(next.drop_last() =~= prev);
        assert(next.last() == views[i as int]);
        proof {
            lemma_dedup_last(prev);
        }
        let keep = if i == 0 {
            true
        } else {
            assert(next[next.len() - 2] == views[i - 1]);
            !(names[i] == out[out.len() - 1])
        };
        if keep {
            out.push(names[i].clone());
        }
        i = i + 1;
    }
    assert(views.take(n as int) =~= views);
    out
}

/// No two adjacent names of the deduplicated list are equal.
pub proof fn law_dedup_no_adjacent_repeats(s: Seq<Seq<char>>)
    ensures
        forall|i: int|
            0 <= i < dedup_adjacent(s).len() - 1 ==> #[trigger] dedup_adjacent(s)[i] != dedup_adjacent(s)[i + 1],
    decreases s.len(),
{
    if s.len() > 1 {
        law_dedup_no_adjacent_repeats(s.drop_last());
        lemma_dedup_last(s.drop_last());
        let d = dedup_adjacent(s.drop_last());
        if s.last() != s[s.len() - 2] {
            assert(s.drop_last().last() == s[s.len() - 2]);
            assert forall|i: int| 0 <= i < d.push(s.last()).len() - 1 implies #[trigger] d.push(s.last())[i]
                != d.push(s.last())[i + 1] by {
                if i == d.len() - 1 {
                    assert(d.push(s.last())[i] == d.last());
                }
            }
        }
    }
}

/// Deduplicating grows name by name: a name equal to the last one adds
/// nothing, any other name is kept at the end; the empty list stays empty.
pub proof fn law_dedup_push(s: Seq<Seq<char>>, x: Seq<char>)
    ensures
        dedup_adjacent(Seq::<Seq<char>>::empty()) == Seq::<Seq<char>>::empty(),
        dedup_adjacent(s.push(x)) == (if s.len() > 0 && s.last() == x {
            dedup_adjacent(s)
        } else {
            dedup_adjacent(s).push(x)
        }),
{
    let t = s.push(x);
    assert(t.drop_last() =~= s);
    assert(t.last() == x);
    if s.len() == 0 {
        assert(t =~= seq![x]);
        assert(Seq::<Seq<char>>::empty().push(x) =~= seq![x]);
    } else {
        assert(t[t.len() - 2] == s.last());
    }
}

/// Deduplicating keeps every name and adds none: a name occurs in the
/// result exactly when it occurs in the input.
pub proof fn law_dedup_same_names(s: Seq<Seq<char>>, x: Seq<char>)
    ensures
        dedup_adjacent(s).contains(x) == s.contains(x),
    decreases s.len(),
{
    if s.len() > 1 {
        let p = s.drop_last();
        law_dedup_same_names(p, x);
        lemma_dedup_last(p);
        assert(s =~= p.push(s.last()));
        let d = dedup_adjacent(p);
        if s.contains(x) {
            let i = choose|i: int| 0 <= i < s.len() && s[i] == x;
            if i < s.len() - 1 {
                assert(p[i] == x);
                assert(p.contains(x));
            }
        }
        if s.last() == s[s.len() - 2] {
            assert(p.last() == s[s.len() - 2]);
            assert(d[d.len() - 1] == s.last());
            if x == s.last() {
                assert(d.contains(x));
                assert(s[s.len() - 1] == x);
            }
            if p.contains(x) {
                let j = choose|j: int| 0 <= j < p.len() && p[j] == x;
                assert(s[j] == x);
            }
        } else {
            let e = d.push(s.last());
            if d.contains(x) {
                let j = choose|j: int| 0 <= j < d.len() && d[j] == x;
                assert(e[j] == x);
            }
            if e.contains(x) {
                let j = choose|j: int| 0 <= j < e.len() && e[j] == x;
                if j < d.len() {
                    assert(d[j] == x);
                } else {
                    assert(s[s.len() - 1] == x);
                }
            }
            if p.contains(x) {
                let j = choose|j: int| 0 <= j < p.len() && p[j] == x;
                assert(s[j] == x);
            }
            if x == s.last() {
                assert(e[e.len() - 1] == x);
                assert(s[s.len() - 1] == x);
            }
        }
    }
}

/// Deduplicating a deduplicated list leaves it as it is.
pub proof fn law_dedup_idempotent(s: Seq<Seq<char>>)
    ensures
        dedup_adjacent(dedup_adjacent(s)) == dedup_adjacent(s),
{
    law_dedup_no_adjacent_repeats(s);
    lemma_dedup_fixed(dedup_adjacent(s));
}

proof fn lemma_dedup_fixed(s: Seq<Seq<char>>)
    requires
        forall|i: int| 0 <= i < s.len() - 1 ==> #[trigger] s[i] != s[i + 1],
    ensures
        dedup_adjacent(s) == s,
    decreases s.len(),
{
    if s.len() > 1 {
        let p = s.drop_last();
        assert forall|i: int| 0 <= i < p.len() - 1 implies #[trigger] p[i] != p[i + 1] by {
            assert(p[i] == s[i] && p[i + 1] == s[i + 1]);
        }
        lemma_dedup_fixed(p);
        assert(s[s.len() - 2] != s[s.len() - 1]);
        assert(s.last() == s[s.len() - 1]);
        assert(p.push(s.last()) =~= s);
    }
}

proof fn lemma_dedup_last(s: Seq<Seq<char>>)
    ensures
        s.len() > 0 ==> dedup_adjacent(s).len() > 0 && dedup_adjacent(s).last() == s.last(),
        s.len() == 0 ==> dedup_adjacent(s).len() == 0,
    decreases s.len(),
{
    if s.len() > 1 {
        lemma_dedup_last(s.drop_last());
        assert(s.drop_last().last() == s[s.len() - 2]);
    }
}

} // verus!
