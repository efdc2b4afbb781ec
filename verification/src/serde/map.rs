//! String-to-string maps, as they travel to and from ClickHouse
//! `Map(String, String)` columns: the wire shape is a list of key/value
//! pairs, the in-memory shape a map in which a later pair for the same
//! key overwrites an earlier one.

use vstd::prelude::*;

verus! {

/// The map described by a pair list read front to back: a later pair for
/// the same key overwrites an earlier one — the usual convention when
/// collecting pairs into a map.
pub open spec fn map_of(pairs: Seq<(Seq<char>, Seq<char>)>) -> Map<Seq<char>, Seq<char>>
    decreases pairs.len(),
{
    if pairs.len() == 0 {
        Map::empty()
    } else {
        map_of(pairs.drop_last()).insert(pairs.last().0, pairs.last().1)
    }
}

/// The pair list carries pairwise distinct keys.
pub open spec fn distinct_keys(pairs: Seq<(Seq<char>, Seq<char>)>) -> bool {
    forall|i: int, j: int|
        0 <= i < j < pairs.len() ==> (#[trigger] pairs[i]).0 != (#[trigger] pairs[j]).0
}

/// A string-to-string map held as key/value pairs with pairwise distinct
/// keys.
pub struct StringMap {
    pairs: Vec<(String, String)>,
}

impl View for StringMap {
    type V = Map<Seq<char>, Seq<char>>;

    closed spec fn view(&self) -> Map<Seq<char>, Seq<char>> {
        map_of(self.pairs.deep_view())
    }
}

impl StringMap {
    /// The representation carries each key at most once.
    pub closed spec fn wf(&self) -> bool {
        distinct_keys(self.pairs.deep_view())
    }

    /// Creates an empty map.
    pub fn new() -> (m: StringMap)
        ensures
            m@ == Map::<Seq<char>, Seq<char>>::empty(),
            m.wf(),
    {
        let m = StringMap { pairs: Vec::new() };
        proof {
            assert(m.pairs.deep_view() =~= Seq::<(Seq<char>, Seq<char>)>::empty());
        }
        m
    }

    /// Binds `k` to `v`, replacing any earlier binding of `k`.
    pub fn insert(&mut self, k: String, v: String)
        requires
            old(self).wf(),
        ensures
            final(self).wf(),
            final(self)@ == old(self)@.insert(k@, v@),
    {
        let ghost pd = self.pairs.deep_view();
        let mut out: Vec<(String, String)> = Vec::new();
        let mut i: usize = 0;
        proof {
            assert(out.deep_view() =~= Seq::<(Seq<char>, Seq<char>)>::empty());
            assert(pd.take(0) =~= Seq::<(Seq<char>, Seq<char>)>::empty());
            assert(map_of(out.deep_view()) =~= map_of(pd.take(0)).remove(k@));
        }
        while i < self.pairs.len()
            invariant
                i <= self.pairs.len(),
                self == old(self),
                pd == self.pairs.deep_view(),
                pd.len() == self.pairs.len(),
                distinct_keys(pd),
                map_of(out.deep_view()) == map_of(pd.take(i as int)).remove(k@),
                distinct_keys(out.deep_view()),
                forall|j: int|
                    0 <= j < out.deep_view().len() ==> (#[trigger] out.deep_view()[j]).0 != k@,
                forall|j: int|
                    0 <= j < out.deep_view().len() ==> exists|t: int|
                        0 <= t < i && (#[trigger] out.deep_view()[j]) == pd[t],
            decreases self.pairs.len() - i,
        {
            let ghost od = out.deep_view();
            proof {
                assert(pd.take(i as int + 1).drop_last() =~= pd.take(i as int));
                assert(pd.take(i as int + 1).last() == pd[i as int]);
                assert(pd[i as int] == self.pairs@[i as int].deep_view());
            }
            let p = &self.pairs[i];
            if !(p.0 == k) {
                out.push((p.0.clone(), p.1.clone()));
                proof {
                    assert(out.deep_view() =~= od.push(pd[i as int]));
                    assert(out.deep_view().drop_last() =~= od);
                    assert(out.deep_view().last() == pd[i as int]);
                    assert(map_of(out.deep_view()) == map_of(od).insert(
                        pd[i as int].0,
                        pd[i as int].1,
                    ));
                    assert(map_of(pd.take(i as int)).remove(k@).insert(
                        pd[i as int].0,
                        pd[i as int].1,
                    ) =~= map_of(pd.take(i as int + 1)).remove(k@));
                    assert forall|a: int, b: int|
                        0 <= a < b < out.deep_view().len() implies (#[trigger] out.deep_view()[a]).0
                        != (#[trigger] out.deep_view()[b]).0 by {
                        if b == od.len() {
                            let t = choose|t: int| 0 <= t < i && od[a] == pd[t];
                            assert(pd[t].0 != pd[i as int].0);
                        }
                    }
                    assert forall|j: int|
                        0 <= j < out.deep_view().len() implies exists|t: int|
                        0 <= t < i + 1 && (#[trigger] out.deep_view()[j]) == pd[t] by {
                        if j < od.len() {
                            let t = choose|t: int| 0 <= t < i && od[j] == pd[t];
                            assert(0 <= t < i + 1 && out.deep_view()[j] == pd[t]);
                        } else {
                            assert(out.deep_view()[j] == pd[i as int]);
                        }
                    }
                }
            } else {
                proof {
                    assert(pd[i as int].0 == k@);
                    assert(map_of(pd.take(i as int + 1)).remove(k@) =~= map_of(
                        pd.take(i as int),
                    ).remove(k@));
                }
            }
            i = i + 1;
        }
        proof {
            assert(pd.take(pd.len() as int) =~= pd);
        }
        let ghost od = out.deep_view();
        out.push((k, v));
        proof {
            assert(out.deep_view() =~= od.push((k@, v@)));
            assert(out.deep_view().drop_last() =~= od);
            assert(out.deep_view().last() == (k@, v@));
            assert(map_of(out.deep_view()) == map_of(od).insert(k@, v@));
            assert(map_of(pd).remove(k@).insert(k@, v@) =~= map_of(pd).insert(k@, v@));
            assert forall|a: int, b: int|
                0 <= a < b < out.deep_view().len() implies (#[trigger] out.deep_view()[a]).0
                != (#[trigger] out.deep_view()[b]).0 by {
                if b == od.len() {
                    assert(od[a].0 != k@);
                }
            }
        }
        self.pairs = out;
    }

    /// The value bound to `k`, where one exists.
    pub fn get(&self, k: &String) -> (r: Option<&String>)
        ensures
            match r {
                Some(v) => self@.contains_key(k@) && v@ == self@[k@],
                None => !self@.contains_key(k@),
            },
    {
        let ghost pd = self.pairs.deep_view();
        let mut i: usize = self.pairs.len();
        proof {
            assert(pd.take(pd.len() as int) =~= pd);
        }
        loop
            invariant
                i <= self.pairs.len(),
                pd == self.pairs.deep_view(),
                pd.len() == self.pairs.len(),
                map_of(pd).contains_key(k@) == map_of(pd.take(i as int)).contains_key(k@),
                map_of(pd).contains_key(k@) ==> map_of(pd)[k@] == map_of(pd.take(i as int))[k@],
            decreases i,
        {
            if i == 0 {
                proof {
                    assert(pd.take(0) =~= Seq::<(Seq<char>, Seq<char>)>::empty());
                }
                return None;
            }
            proof {
                assert(pd.take(i as int).drop_last() =~= pd.take(i as int - 1));
                assert(pd.take(i as int).last() == pd[i as int - 1]);
                assert(pd[i as int - 1] == self.pairs@[i as int - 1].deep_view());
            }
            let p = &self.pairs[i - 1];
            if p.0 == *k {
                return Some(&p.1);
            }
            i = i - 1;
        }
    }

    /// The pair list itself, cloned: each key once, bound to its value.
    pub fn to_pairs(&self) -> (pairs: Vec<(String, String)>)
        requires
            self.wf(),
        ensures
            map_of(pairs.deep_view()) == self@,
            distinct_keys(pairs.deep_view()),
    {
        serialize(self)
    }
}

/// Renders a map in the wire shape ClickHouse expects for a
/// `Map(String, String)` column: a list of key/value pairs, each key
/// exactly once, describing exactly the given map.
pub fn serialize(value: &StringMap) -> (pairs: Vec<(String, String)>)
    requires
        value.wf(),
    ensures
        map_of(pairs.deep_view()) == value@,
        distinct_keys(pairs.deep_view()),
{
    let ghost pd = value.pairs.deep_view();
    let mut out: Vec<(String, String)> = Vec::new();
    let mut i: usize = 0;
    proof {
        assert(out.deep_view() =~= pd.take(0));
    }
    while i < value.pairs.len()
        invariant
            i <= value.pairs.len(),
            pd == value.pairs.deep_view(),
            pd.len() == value.pairs.len(),
            out.deep_view() == pd.take(i as int),
        decreases value.pairs.len() - i,
    {
        let ghost od = out.deep_view();
        let p = &value.pairs[i];
        out.push((p.0.clone(), p.1.clone()));
        proof {
            assert(pd[i as int] == value.pairs@[i as int].deep_view());
            assert(out.deep_view() =~= od.push(pd[i as int]));
            assert(od.push(pd[i as int]) =~= pd.take(i as int + 1));
        }
        i = i + 1;
    }
    proof {
        assert(pd.take(pd.len() as int) =~= pd);
    }
    out
}

/// Reads a pair list — as a ClickHouse `Map(String, String)` column
/// arrives — into a map, later pairs overwriting earlier ones for the
/// same key.
pub fn deserialize(pairs: Vec<(String, String)>) -> (m: StringMap)
    ensures
        m@ == map_of(pairs.deep_view()),
        m.wf(),
{
    let ghost pd = pairs.deep_view();
    let mut m = StringMap::new();
    let mut i: usize = 0;
    proof {
        assert(pd.take(0) =~= Seq::<(Seq<char>, Seq<char>)>::empty());
        assert(m@ =~= map_of(pd.take(0)));
    }
    while i < pairs.len()
        invariant
            i <= pairs.len(),
            pd == pairs.deep_view(),
            pd.len() == pairs.len(),
            m@ == map_of(pd.take(i as int)),
            m.wf(),
        decreases pairs.len() - i,
    {
        proof {
            assert(pd.take(i as int + 1).drop_last() =~= pd.take(i as int));
            assert(pd.take(i as int + 1).last() == pd[i as int]);
            assert(pd[i as int] == pairs@[i as int].deep_view());
        }
        let p = &pairs[i];
        m.insert(p.0.clone(), p.1.clone());
        i = i + 1;
    }
    proof {
        assert(pd.take(pd.len() as int) =~= pd);
    }
    m
}

} // verus!
