//! The recently opened/saved project list: most recent first, no path twice,
//! at most `MAX_RECENT` entries.

use vstd::prelude::*;

verus! {

/// Longest the list gets.
pub const MAX_RECENT: usize = 10;

/// Whether two paths name the same path as `std::path::Path` compares them
/// (component by component, so `"/a/"` and `"/a"` are the same path).
pub uninterp spec fn path_eq(a: Seq<char>, b: Seq<char>) -> bool;

/// `Path::new(a) == Path::new(b)`, std's component-wise path equality. The
/// contract claims that the answer is a function of the two strings and that
/// a string names the same path as itself (`Path` is `Eq`); which other
/// strings compare equal is left to the name.
#[verifier::external_body]
fn same_path(a: &str, b: &str) -> (r: bool)
    ensures
        r == path_eq(a@, b@),
        a@ == b@ ==> r,
{
    std::path::Path::new(a) == std::path::Path::new(b)
}

/// The paths as character sequences.
pub open spec fn path_views(l: Seq<String>) -> Seq<Seq<char>> {
    l.map_values(|s: String| s@)
}

/// At most the first `MAX_RECENT` entries of `s`.
pub open spec fn capped(s: Seq<Seq<char>>) -> Seq<Seq<char>> {
    if s.len() > MAX_RECENT {
        s.take(MAX_RECENT as int)
    } else {
        s
    }
}

/// The list after pushing `e`: `e` first, then the old entries that are not
/// the same path as `e`, in their old order, cut to `MAX_RECENT`.
pub open spec fn pushed(l: Seq<Seq<char>>, e: Seq<char>) -> Seq<Seq<char>> {
    capped(seq![e] + l.filter(|p: Seq<char>| !path_eq(p, e)))
}

/// Moves `entry` to the front of `list`, dropping any other entry for the
/// same path and trimming the tail to `MAX_RECENT`.
pub fn push(list: &mut Vec<String>, entry: String)
    ensures
        path_views(final(list)@) == pushed(path_views(old(list)@), entry@),
        path_eq(entry@, entry@),
{
    let ghost e = entry@;
    let same = same_path(entry.as_str(), entry.as_str());
    assert(same);
    let ghost pred = |p: Seq<char>| !path_eq(p, e);
    let ghost l0 = path_views(list@);
    let mut out: Vec<String> = Vec::new();
    out.push(entry);
    let mut i: usize = 0;
    while i < list.len()
        invariant
            i <= list.len(),
            l0 == path_views(list@),
            pred == (|p: Seq<char>| !path_eq(p, e)),
            out@.len() >= 1,
            path_views(out@) == capped(seq![e] + l0.take(i as int).filter(pred)),
        decreases list.len() - i,
    {
        let ghost before = l0.take(i as int).filter(pred);
        proof {
            assert(l0.take(i + 1) =~= l0.take(i as int).push(l0[i as int]));
            l0.take(i as int).lemma_filter_push(l0[i as int], pred);
        }
        let keep = !same_path(list[i].as_str(), out[0].as_str());
        proof {
            assert(out@[0]@ == path_views(out@)[0]);
            assert(path_views(out@)[0] == e);
            assert(list@[i as int]@ == l0[i as int]);
            assert(keep == pred(l0[i as int]));
        }
        if keep && out.len() < MAX_RECENT {
            let p = list[i].clone();
            let ghost pv = path_views(out@);
            out.push(p);
            proof {
                assert(path_views(out@) =~= pv.push(l0[i as int]));
                assert(seq![e] + before.push(l0[i as int]) =~= (seq![e] + before).push(l0[i as int]));
            }
        } else if keep {
            proof {
                let all = seq![e] + before;
                assert((seq![e] + before.push(l0[i as int])).take(MAX_RECENT as int) =~= all.take(
                    MAX_RECENT as int,
                ));
            }
        }
        i = i + 1;
    }
    proof {
        assert(l0.take(list@.len() as int) =~= l0);
    }
    *list = out;
}

/// At most the first `MAX_RECENT` of `v`.
pub open spec fn first_recent(v: Seq<String>) -> Seq<String> {
    if v.len() > MAX_RECENT {
        v.take(MAX_RECENT as int)
    } else {
        v
    }
}

/// `stored` holds the paths of `paths`, in order.
pub open spec fn stores(paths: Seq<String>, stored: Seq<String>) -> bool {
    &&& stored.len() == paths.len()
    &&& forall|i: int| 0 <= i < stored.len() ==> #[trigger] stored[i]@ == paths[i]@
}

/// Saving a list then loading it gives back its first `MAX_RECENT` paths;
/// a list that `push` built is never longer, so it comes back whole.
pub proof fn law_recent_roundtrip(paths: Seq<String>, stored: Seq<String>, loaded: Seq<String>)
    requires
        stores(paths, stored),
        loaded == first_recent(stored),
    ensures
        loaded.len() == if paths.len() > MAX_RECENT { MAX_RECENT as int } else { paths.len() as int },
        forall|i: int| 0 <= i < loaded.len() ==> #[trigger] loaded[i]@ == paths[i]@,
        paths.len() <= MAX_RECENT ==> path_views(loaded) == path_views(paths),
{
    if paths.len() <= MAX_RECENT {
        assert(path_views(loaded) =~= path_views(paths));
    }
}

/// A list that `push` builds never holds more than `MAX_RECENT` paths.
pub proof fn law_pushed_capped(l: Seq<Seq<char>>, e: Seq<char>)
    ensures
        pushed(l, e).len() <= MAX_RECENT,
        pushed(l, e).len() >= 1,
        pushed(l, e)[0] == e,
{
}

/// The list a recent-projects file yields, given the paths it parsed to
/// (`None` when the file is missing or does not parse): its first
/// `MAX_RECENT` paths, in order.
pub fn load(stored: Option<Vec<String>>) -> (r: Vec<String>)
    ensures
        stored is None ==> r@.len() == 0,
        stored matches Some(v) ==> r@ == first_recent(v@),
{
    match stored {
        None => Vec::new(),
        Some(v) => {
            let mut v = v;
            if v.len() > MAX_RECENT {
                v.truncate(MAX_RECENT);
            }
            v
        },
    }
}

/// What the recent-projects file stores for `paths`: every path, in order.
pub fn save(paths: &[String]) -> (r: Vec<String>)
    ensures
        stores(paths@, r@),
{
    let mut r: Vec<String> = Vec::new();
    let mut i: usize = 0;
    while i < paths.len()
        invariant
            i <= paths.len(),
            r@.len() == i,
            forall|j: int| 0 <= j < i ==> #[trigger] r@[j]@ == paths@[j]@,
        decreases paths.len() - i,
    {
        r.push(paths[i].clone());
        i = i + 1;
    }
    r
}

/// Every element of `s` passes `pred`, so filtering keeps all of `s`.
proof fn lemma_filter_keeps_all(s: Seq<Seq<char>>, pred: spec_fn(Seq<char>) -> bool)
    requires
        forall|i: int| 0 <= i < s.len() ==> pred(#[trigger] s[i]),
    ensures
        s.filter(pred) == s,
    decreases s.len(),
{
    if s.len() > 0 {
        let t = s.drop_last();
        lemma_filter_keeps_all(t, pred);
        assert(t.push(s.last()) =~= s);
        t.lemma_filter_push(s.last(), pred);
    }
}

/// Pushing a path that was just pushed leaves the list as it is: it is
/// already first and nowhere else. Stated for a path that compares equal to
/// itself, as every `Path` does (`push` ensures it of the path it pushed).
pub proof fn law_push_idempotent(l: Seq<Seq<char>>, e: Seq<char>)
    requires
        path_eq(e, e),
    ensures
        pushed(pushed(l, e), e) == pushed(l, e),
{
    let pred = |p: Seq<char>| !path_eq(p, e);
    let f = l.filter(pred);
    broadcast use vstd::seq_lib::group_filter_ensures;
    let p1 = pushed(l, e);
    let rest = if f.len() > MAX_RECENT - 1 { f.take(MAX_RECENT - 1) } else { f };
    assert(p1 =~= seq![e] + rest);
    assert forall|i: int| 0 <= i < rest.len() implies pred(#[trigger] rest[i]) by {
        assert(rest[i] == f[i]);
    }
    lemma_filter_keeps_all(rest, pred);
    Seq::filter_distributes_over_add(seq![e], rest, pred);
    assert(seq![e].filter(pred) =~= Seq::<Seq<char>>::empty()) by {
        Seq::<Seq<char>>::empty().lemma_filter_push(e, pred);
        assert(Seq::<Seq<char>>::empty().push(e) =~= seq![e]);
        reveal(Seq::filter);
    }
    assert(p1.filter(pred) =~= rest);
    assert(seq![e] + p1.filter(pred) =~= p1);
}

} // verus!
