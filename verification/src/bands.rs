//! Lists of bands in ascending order, each band at most once.
use std::collections::{HashMap, HashSet};
use vstd::prelude::*;

verus! {

broadcast use vstd::std_specs::hash::group_hash_axioms;

/// In ascending order, each band once.
pub open spec fn ascending(bands: Seq<u16>) -> bool {
    forall|i: int, j: int| 0 <= i < j < bands.len() ==> bands[i] < bands[j]
}

/// Two ascending lists of the same bands are the same list.
pub proof fn law_ascending_unique(a: Seq<u16>, b: Seq<u16>)
    requires
        ascending(a),
        ascending(b),
        forall|band: u16| a.contains(band) <==> b.contains(band),
    ensures
        a == b,
    decreases a.len(),
{
    if a.len() == 0 {
        if b.len() > 0 {
            assert(b.contains(b[0]));
        }
        assert(a =~= b);
    } else {
        assert(a.contains(a[0]));
        assert(b.contains(a[0]));
        assert(b.contains(b[0]));
        assert(a.contains(b[0]));
        let x = a.drop_first();
        let y = b.drop_first();
        assert(a[0] == b[0]);
        assert forall|band: u16| x.contains(band) <==> y.contains(band) by {
            if x.contains(band) {
                let i = choose|i: int| 0 <= i < x.len() && x[i] == band;
                assert(a[i + 1] == band);
                assert(a.contains(band));
                let j = choose|j: int| 0 <= j < b.len() && b[j] == band;
                assert(y[j - 1] == band);
            }
            if y.contains(band) {
                let i = choose|i: int| 0 <= i < y.len() && y[i] == band;
                assert(b[i + 1] == band);
                assert(b.contains(band));
                let j = choose|j: int| 0 <= j < a.len() && a[j] == band;
                assert(x[j - 1] == band);
            }
        }
        law_ascending_unique(x, y);
        assert(a =~= seq![a[0]] + x);
        assert(b =~= seq![b[0]] + y);
    }
}

/// Whether the list holds the band.
pub fn holds(bands: &[u16], band: u16) -> (res: bool)
    ensures
        res == bands@.contains(band),
{
    for i in 0..bands.len()
        invariant
            forall|j: int| 0 <= j < i ==> bands@[j] != band,
    {
        if bands[i] == band {
            return true;
        }
    }
    false
}

/// Puts a band into the list, in its place.
pub fn insert_band(bands: &mut Vec<u16>, band: u16)
    requires
        ascending(old(bands)@),
    ensures
        ascending(final(bands)@),
        forall|b: u16| #[trigger]
            final(bands)@.contains(b) <==> old(bands)@.contains(b) || b == band,
{
    let ghost start = bands@;
    let mut n: usize = 0;
    while n < bands.len() && bands[n] < band
        invariant
            n <= bands@.len(),
            bands@ == start,
            forall|i: int| 0 <= i < n ==> bands@[i] < band,
        decreases bands@.len() - n,
    {
        n = n + 1;
    }
    if n < bands.len() && bands[n] == band {
        return;
    }
    bands.insert(n, band);
    proof {
        assert forall|b: u16| #[trigger] bands@.contains(b) <==> start.contains(b) || b == band by {
            if bands@.contains(b) && b != band {
                let i = choose|i: int| 0 <= i < bands@.len() && bands@[i] == b;
                if i < n {
                    assert(start[i] == b);
                } else {
                    assert(start[i - 1] == b);
                }
            }
            if start.contains(b) {
                let i = choose|i: int| 0 <= i < start.len() && start[i] == b;
                if i < n {
                    assert(bands@[i] == b);
                } else {
                    assert(bands@[i + 1] == b);
                }
            }
            assert(bands@[n as int] == band);
        }
    }
}

/// Takes a band out of the list.
pub fn remove_band(bands: &mut Vec<u16>, band: u16)
    requires
        ascending(old(bands)@),
    ensures
        ascending(final(bands)@),
        forall|b: u16| #[trigger]
            final(bands)@.contains(b) <==> old(bands)@.contains(b) && b != band,
{
    let ghost start = bands@;
    let mut n: usize = 0;
    while n < bands.len() && bands[n] != band
        invariant
            n <= bands@.len(),
            bands@ == start,
            forall|i: int| 0 <= i < n ==> bands@[i] != band,
        decreases bands@.len() - n,
    {
        n = n + 1;
    }
    if n < bands.len() {
        bands.remove(n);
        proof {
            assert forall|b: u16| #[trigger]
                bands@.contains(b) <==> start.contains(b) && b != band by {
                if bands@.contains(b) {
                    let i = choose|i: int| 0 <= i < bands@.len() && bands@[i] == b;
                    if i < n {
                        assert(start[i] == b);
                    } else {
                        assert(start[i + 1] == b);
                    }
                }
                if start.contains(b) && b != band {
                    let i = choose|i: int| 0 <= i < start.len() && start[i] == b;
                    if i < n {
                        assert(bands@[i] == b);
                    } else {
                        assert(bands@[i - 1] == b);
                    }
                }
            }
        }
    }
}

/// Some bands and one more.
pub proof fn lemma_take_one_more(bands: Seq<u16>, n: int)
    requires
        0 <= n < bands.len(),
    ensures
        forall|b: u16| #[trigger]
            bands.take(n + 1).contains(b) <==> bands.take(n).contains(b) || b == bands[n],
{
    let done = bands.take(n);
    let next = bands.take(n + 1);
    assert forall|b: u16| #[trigger] next.contains(b) <==> done.contains(b) || b == bands[n] by {
        if done.contains(b) {
            let j = choose|j: int| 0 <= j < done.len() && done[j] == b;
            assert(next[j] == b);
        }
        assert(next[n] == bands[n]);
        if next.contains(b) && b != bands[n] {
            let j = choose|j: int| 0 <= j < next.len() && next[j] == b;
            assert(done[j] == b);
        }
    }
}

/// The bands of a list in ascending order, each once.
fn sorted_list(list: &[u16]) -> (bands: Vec<u16>)
    ensures
        ascending(bands@),
        forall|b: u16| #[trigger] bands@.contains(b) <==> list@.contains(b),
{
    let mut bands: Vec<u16> = Vec::new();
    for i in 0..list.len()
        invariant
            ascending(bands@),
            forall|b: u16| #[trigger] bands@.contains(b) <==> list@.take(i as int).contains(b),
    {
        insert_band(&mut bands, list[i]);
        proof {
            lemma_take_one_more(list@, i as int);
        }
    }
    assert(list@.take(list@.len() as int) =~= list@);
    bands
}

/// The bands of the map in ascending order.
pub fn sorted_bands(map: &HashMap<u16, u64>) -> (bands: Vec<u16>)
    ensures
        ascending(bands@),
        forall|b: u16| #[trigger] bands@.contains(b) <==> map@.contains_key(b),
{
    let mut list: Vec<u16> = Vec::new();
    for key in it: map.keys()
        invariant
            list@ == it.seq().unref().take(it.index() as int),
            it.seq().unref().to_set() == map@.dom(),
            it.index() == it.seq().len() ==> list@.to_set() == map@.dom(),
    {
        list.push(*key);
        assert(list@ =~= it.seq().unref().take(it.index() + 1));
        assert(it.index() + 1 == it.seq().len() ==> list@ =~= it.seq().unref());
    }
    assert(forall|b: u16| #[trigger] map@.contains_key(b) <==> list@.to_set().contains(b));
    sorted_list(list.as_slice())
}

/// The bands of the set in ascending order.
pub fn sorted_set(set: &HashSet<u16>) -> (bands: Vec<u16>)
    ensures
        ascending(bands@),
        forall|b: u16| #[trigger] bands@.contains(b) <==> set@.contains(b),
{
    let mut list: Vec<u16> = Vec::new();
    for key in it: set.iter()
        invariant
            list@ == it.seq().unref().take(it.index() as int),
            it.seq().unref().to_set() == set@,
            it.index() == it.seq().len() ==> list@.to_set() == set@,
    {
        list.push(*key);
        assert(list@ =~= it.seq().unref().take(it.index() + 1));
        assert(it.index() + 1 == it.seq().len() ==> list@ =~= it.seq().unref());
    }
    assert(forall|b: u16| #[trigger] set@.contains(b) <==> list@.to_set().contains(b));
    sorted_list(list.as_slice())
}

} // verus!
