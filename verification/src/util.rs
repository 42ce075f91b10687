use vstd::prelude::*;

verus! {

/// The stable deduplication of `rest` merged after `acc`: a pending value
/// already present is dropped, any other is appended, so first occurrences
/// keep their order.
pub open spec fn dedup_vals_spec(acc: Seq<i32>, rest: Seq<i32>) -> Seq<i32>
    decreases rest.len(),
{
    if rest.len() == 0 {
        acc
    } else {
        dedup_vals_spec(
            if acc.contains(rest[0]) {
                acc
            } else {
                acc.push(rest[0])
            },
            rest.drop_first(),
        )
    }
}

/// Full deduplication of a value list, keeping the first occurrence of each
/// value in order: walk the list with a cursor and remove every value that
/// already occurred before it.
#[verifier::loop_isolation(false)]
pub fn dedup(array: &mut Vec<i32>)
    ensures
        final(array)@ == dedup_vals_spec(Seq::<i32>::empty(), old(array)@),
{
    let ghost input = array@;
    let mut cursor: usize = 0;
    proof {
        assert(array@.subrange(0, 0) =~= Seq::<i32>::empty());
        assert(array@.subrange(0, array@.len() as int) =~= array@);
    }
    while cursor < array.len()
        invariant
            cursor <= array@.len(),
            dedup_vals_spec(
                array@.subrange(0, cursor as int),
                array@.subrange(cursor as int, array@.len() as int),
            ) == dedup_vals_spec(Seq::<i32>::empty(), input),
        decreases array@.len() - cursor,
    {
        let ghost arr0 = array@;
        let ghost prefix = array@.subrange(0, cursor as int);
        let ghost suffix = array@.subrange(cursor as int, array@.len() as int);
        let cur = cursor;
        let mut found = false;
        let mut j: usize = 0;
        while j < cur && !found
            invariant
                j <= cur,
                array@ == arr0,
                !found ==> forall|t: int| 0 <= t < j ==> array@[t] != array@[cur as int],
                found ==> prefix.contains(suffix[0]),
            decreases cur - j + (if found {
                0int
            } else {
                1int
            }),
        {
            if array[j] == array[cursor] {
                found = true;
                proof {
                    assert(prefix[j as int] == suffix[0]);
                }
            } else {
                j = j + 1;
            }
        }
        if found {
            let _ = array.remove(cursor);
            proof {
                assert(array@.subrange(0, cursor as int) =~= prefix);
                assert(array@.subrange(cursor as int, array@.len() as int) =~= suffix.drop_first());
            }
        } else {
            proof {
                assert(!prefix.contains(suffix[0])) by {
                    if prefix.contains(suffix[0]) {
                        let t = choose|t: int|
                            0 <= t < prefix.len() && prefix[t] == suffix[0];
                        assert(arr0[t] == arr0[cur as int]);
                    }
                }
                assert(arr0.subrange(0, cur as int + 1) =~= prefix.push(suffix[0]));
                assert(arr0.subrange(cur as int + 1, arr0.len() as int) =~= suffix.drop_first());
            }
            cursor = cursor + 1;
        }
    }
    proof {
        assert(array@.subrange(0, cursor as int) =~= array@);
        assert(array@.subrange(cursor as int, array@.len() as int) =~= Seq::<i32>::empty());
    }
}

} // verus!
