use vstd::prelude::*;

verus! {

/// The tags of a vector of tagged items.
pub open spec fn tags_of(tagged: Seq<(usize, String)>) -> Seq<usize> {
    Seq::new(tagged.len(), |k: int| tagged[k].0)
}

/// Whether the tags are the positions `0, 1, ..` below their number, each
/// once, in any order.
pub open spec fn is_arrangement(tags: Seq<usize>) -> bool {
    &&& forall|k: int| 0 <= k < tags.len() ==> (#[trigger] tags[k]) < tags.len()
    &&& forall|a: int, b: int| 0 <= a < b < tags.len() ==> tags[a] != tags[b]
    &&& forall|i: usize| i < tags.len() ==> #[trigger] tags.contains(i)
}

/// Puts items that were finished in any order back into the order of their
/// tags: the item tagged `i` comes to stand at place `i`. Tags that are not
/// the positions `0, 1, ..`, each once, are refused.
pub fn arrange_by_index(tagged: &Vec<(usize, String)>) -> (out: Option<Vec<String>>)
    ensures
        out is Some <==> is_arrangement(tags_of(tagged@)),
        out is Some ==> {
            &&& out->Some_0@.len() == tagged@.len()
            &&& forall|k: int|
                0 <= k < tagged@.len() ==> {
                    &&& (#[trigger] tagged@[k]).0 < tagged@.len()
                    &&& out->Some_0@[tagged@[k].0 as int]@ == tagged@[k].1@
                }
        },
{
    let n: usize = tagged.len();
    let ghost tags = tags_of(tagged@);
    let mut slots: Vec<Option<usize>> = Vec::new();
    let mut i: usize = 0;
    while i < n
        invariant
            i <= n,
            slots@.len() == i,
            forall|s: int| 0 <= s < i ==> slots@[s] is None,
        decreases n - i,
    {
        slots.push(None);
        i = i + 1;
    }
    let mut k: usize = 0;
    while k < n
        invariant
            n == tagged@.len(),
            tags == tags_of(tagged@),
            k <= n,
            slots@.len() == n,
            forall|s: int|
                0 <= s < n && (#[trigger] slots@[s]) is Some ==> slots@[s]->Some_0 < k
                    && tags[slots@[s]->Some_0 as int] == s,
            forall|p: int|
                0 <= p < k ==> (#[trigger] tags[p]) < n && slots@[tags[p] as int] == Some(
                    p as usize,
                ),
        decreases n - k,
    {
        let tag: usize = tagged[k].0;
        proof {
            assert(tags[k as int] == tag);
        }
        if tag >= n {
            return None;
        }
        if slots[tag].is_some() {
            proof {
                let earlier = slots@[tag as int]->Some_0 as int;
                assert(tags[earlier] == tags[k as int]);
            }
            return None;
        }
        slots.set(tag, Some(k));
        k = k + 1;
    }
    proof {
        assert forall|a: int, b: int| 0 <= a < b < tags.len() implies tags[a] != tags[b] by {
            if tags[a] == tags[b] {
                assert(slots@[tags[a] as int] == Some(a as usize));
                assert(slots@[tags[b] as int] == Some(b as usize));
            }
        }
    }
    let mut out: Vec<String> = Vec::new();
    let mut s: usize = 0;
    while s < n
        invariant
            n == tagged@.len(),
            tags == tags_of(tagged@),
            slots@.len() == n,
            s <= n,
            out@.len() == s,
            forall|x: int| 0 <= x < s ==> (#[trigger] slots@[x]) is Some,
            forall|x: int|
                0 <= x < s ==> ((#[trigger] out@[x])@ == tagged@[slots@[x]->Some_0 as int].1@),
            forall|x: int|
                0 <= x < n && (#[trigger] slots@[x]) is Some ==> slots@[x]->Some_0 < n
                    && tags[slots@[x]->Some_0 as int] == x,
            forall|p: int|
                0 <= p < n ==> (#[trigger] tags[p]) < n && slots@[tags[p] as int] == Some(
                    p as usize,
                ),
        decreases n - s,
    {
        let slot: Option<usize> = slots[s];
        if slot.is_none() {
            proof {
                if tags.contains(s) {
                    let p = choose|p: int| 0 <= p < tags.len() && tags[p] == s;
                    assert(slots@[tags[p] as int] is Some);
                }
            }
            return None;
        }
        let from: usize = slot.unwrap();
        let ghost held = out@;
        out.push(tagged[from].1.clone());
        proof {
            assert forall|x: int| 0 <= x < s + 1 implies ((#[trigger] out@[x])@
                == tagged@[slots@[x]->Some_0 as int].1@) by {
                if x < s {
                    assert(out@[x] == held[x]);
                }
            }
        }
        s = s + 1;
    }
    proof {
        assert forall|x: usize| x < tags.len() implies #[trigger] tags.contains(x) by {
            let item = out@[x as int];
            assert(slots@[x as int] is Some);
            assert(tags[slots@[x as int]->Some_0 as int] == x);
        }
        assert forall|p: int| 0 <= p < tagged@.len() implies (#[trigger] tagged@[p]).0
            < tagged@.len() && out@[tagged@[p].0 as int]@ == tagged@[p].1@ by {
            assert(tags[p] == tagged@[p].0);
            assert(slots@[tags[p] as int] == Some(p as usize));
        }
    }
    Some(out)
}

} // verus!
