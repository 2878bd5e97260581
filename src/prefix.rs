//! The longest common prefix of a list of strings.
use vstd::prelude::*;
use vstd::string::{StrSliceExecFns, StringExecFns};

verus! {

/// `p` begins `s`.
pub open spec fn is_prefix(p: Seq<char>, s: Seq<char>) -> bool {
    p.len() <= s.len() && s.subrange(0, p.len() as int) == p
}

/// `p` begins every string of `strs`, and cannot be extended: it is as long as one of
/// them, or two of them differ right after it.
pub open spec fn is_longest_common_prefix(p: Seq<char>, strs: Seq<&str>) -> bool {
    &&& forall|i: int| 0 <= i < strs.len() ==> is_prefix(p, #[trigger] strs[i]@)
    &&& strs.len() > 0 ==> exists|i: int|
        0 <= i < strs.len() && (#[trigger] strs[i]@.len() == p.len() || strs[i]@[p.len() as int]
            != strs[0]@[p.len() as int])
}

pub fn longest_common_prefix(strs: Vec<&str>) -> (r: String)
    ensures
        strs@.len() == 0 ==> r@ == Seq::<char>::empty(),
        is_longest_common_prefix(r@, strs@),
{
    if strs.len() == 0 {
        return String::new();
    }
    // the length of the shortest string, and which one it is
    let mut min_len = strs[0].unicode_len();
    let mut shortest: usize = 0;
    let mut i: usize = 1;
    while i < strs.len()
        invariant
            1 <= i <= strs@.len(),
            shortest < strs@.len(),
            min_len == strs@[shortest as int]@.len(),
            forall|j: int| 0 <= j < i ==> min_len <= (#[trigger] strs@[j])@.len(),
        decreases strs@.len() - i,
    {
        let l = strs[i].unicode_len();
        if l < min_len {
            min_len = l;
            shortest = i;
        }
        i = i + 1;
    }
    let first = strs[0];
    let mut k: usize = 0;
    while k < min_len
        invariant
            k <= min_len,
            first == strs@[0],
            shortest < strs@.len(),
            min_len == strs@[shortest as int]@.len(),
            forall|j: int| 0 <= j < strs@.len() ==> min_len <= (#[trigger] strs@[j])@.len(),
            forall|j: int, q: int|
                0 <= j < strs@.len() && 0 <= q < k ==> #[trigger] strs@[j]@[q] == first@[q],
        decreases min_len - k,
    {
        let c = first.get_char(k);
        let mut j: usize = 1;
        while j < strs.len()
            invariant
                1 <= j <= strs@.len(),
                k < min_len,
                first == strs@[0],
                c == first@[k as int],
                forall|t: int, q: int|
                    0 <= t < strs@.len() && 0 <= q < k ==> #[trigger] strs@[t]@[q] == first@[q],
                forall|t: int| 0 <= t < strs@.len() ==> min_len <= (#[trigger] strs@[t])@.len(),
                forall|t: int| 0 <= t < j ==> (#[trigger] strs@[t])@[k as int] == c,
            decreases strs@.len() - j,
        {
            if strs[j].get_char(k) != c {
                let p = first.substring_char(0, k);
                let r = String::from_str(p);
                proof {
                    assert forall|t: int| 0 <= t < strs@.len() implies is_prefix(r@, #[trigger] strs@[t]@) by {
                        assert(strs@[t]@.subrange(0, k as int) =~= r@);
                    }
                }
                return r;
            }
            j = j + 1;
        }
        k = k + 1;
    }
    let p = first.substring_char(0, min_len);
    let r = String::from_str(p);
    proof {
        assert forall|t: int| 0 <= t < strs@.len() implies is_prefix(r@, #[trigger] strs@[t]@) by {
            assert(strs@[t]@.subrange(0, min_len as int) =~= r@);
        }
        assert(strs@[shortest as int]@.len() == r@.len());
    }
    r
}

} // verus!
