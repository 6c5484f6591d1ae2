use vstd::prelude::*;
use vstd::string::StrSliceExecFns;

verus! {

broadcast use vstd::seq_lib::group_to_multiset_ensures, vstd::multiset::group_multiset_axioms;

/// Draw order between two render entries `(list, index, depth)`: the lesser
/// depth key paints first; at equal depth the lesser original index paints
/// first, so the order is stable and fully determined.
pub open spec fn entry_le(a: (usize, usize, i64), b: (usize, usize, i64)) -> bool {
    a.2 < b.2 || (a.2 == b.2 && a.1 <= b.1)
}

/// Sorts render entries by depth key, ascending, keeping entries of equal
/// depth in the order of their original indices.  The result holds exactly
/// the entries given.
pub fn sort(list: &mut Vec<(usize, usize, i64)>)
    ensures
        final(list)@.len() == old(list)@.len(),
        final(list)@.to_multiset() == old(list)@.to_multiset(),
        forall|a: int, b: int|
            0 <= a < b < final(list)@.len() ==> entry_le(
                #[trigger] final(list)@[a],
                #[trigger] final(list)@[b],
            ),
{
    let ghost init = list@;
    let mut out: Vec<(usize, usize, i64)> = Vec::new();
    while list.len() > 0
        invariant
            out@.to_multiset().add(list@.to_multiset()) == init.to_multiset(),
            out@.len() + list@.len() == init.len(),
            forall|a: int, b: int|
                0 <= a < b < out@.len() ==> entry_le(#[trigger] out@[a], #[trigger] out@[b]),
            forall|a: int, b: int|
                0 <= a < out@.len() && 0 <= b < list@.len() ==> entry_le(
                    #[trigger] out@[a],
                    #[trigger] list@[b],
                ),
        decreases list@.len(),
    {
        let n = list.len();
        let mut m: usize = 0;
        let mut k: usize = 1;
        while k < n
            invariant
                0 <= m < k <= n,
                n == list@.len(),
                forall|b: int| 0 <= b < k ==> entry_le(list@[m as int], #[trigger] list@[b]),
            decreases n - k,
        {
            let a = list[k];
            let c = list[m];
            if a.2 < c.2 || (a.2 == c.2 && a.1 < c.1) {
                m = k;
            }
            k = k + 1;
        }
        let ghost pre = list@;
        let picked = list.remove(m);
        proof {
            assert(list@ == pre.remove(m as int));
            assert(list@.to_multiset() == pre.to_multiset().remove(picked));
        }
        out.push(picked);
        proof {
            assert(out@.to_multiset().add(list@.to_multiset()) =~= init.to_multiset());
            assert forall|b: int| 0 <= b < list@.len() implies entry_le(
                picked,
                #[trigger] list@[b],
            ) by {
                if b < m {
                    assert(list@[b] == pre[b]);
                } else {
                    assert(list@[b] == pre[b + 1]);
                }
            }
        }
    }
    *list = out;
}

/// The draw order of the live entities: given each entity's depth key (its
/// world Y coordinate, as an order-preserving integer), returns one entry
/// `(0, index, key)` per entity, ordered back to front — ascending by key,
/// entities of equal depth keeping their list order.
pub fn order_sort(ys: &Vec<i64>) -> (r: Vec<(usize, usize, i64)>)
    ensures
        r@.len() == ys@.len(),
        r@.to_multiset() == Seq::new(ys@.len(), |i: int| (0usize, i as usize, ys@[i])).to_multiset(),
        forall|a: int, b: int|
            0 <= a < b < r@.len() ==> entry_le(#[trigger] r@[a], #[trigger] r@[b]),
        forall|k: int|
            0 <= k < r@.len() ==> (#[trigger] r@[k]).0 == 0 && r@[k].1 < ys@.len() && r@[k].2
                == ys@[r@[k].1 as int],
{
    let ghost init = Seq::new(ys@.len(), |i: int| (0usize, i as usize, ys@[i]));
    let mut list: Vec<(usize, usize, i64)> = Vec::new();
    let mut iter: usize = 0;
    let n = ys.len();
    while iter < n
        invariant
            0 <= iter <= n,
            n == ys@.len(),
            list@.len() == iter,
            forall|k: int| 0 <= k < iter ==> #[trigger] list@[k] == (0usize, k as usize, ys@[k]),
        decreases n - iter,
    {
        list.push((0usize, iter, ys[iter]));
        iter = iter + 1;
    }
    proof {
        assert(list@ =~= init);
    }
    sort(&mut list);
    proof {
        assert forall|k: int|
            0 <= k < list@.len() implies (#[trigger] list@[k]).0 == 0 && list@[k].1 < ys@.len()
            && list@[k].2 == ys@[list@[k].1 as int] by {
            assert(list@.to_multiset().contains(list@[k]));
            assert(init.to_multiset().contains(list@[k]));
            assert(init.contains(list@[k]));
            let w = choose|w: int| 0 <= w < init.len() && init[w] == list@[k];
            assert(init[w] == (0usize, w as usize, ys@[w]));
        }
    }
    list
}

/// `c` reads as the (ASCII lower-case) letter `d`: either the two are equal,
/// or `d` is a lower-case ASCII letter and `c` is its upper-case form.
pub open spec fn char_reads_as(c: char, d: char) -> bool {
    c == d || ('a' <= d && d <= 'z' && c as u32 + 32 == d as u32)
}

/// `s` equals the lower-case string `t` up to ASCII case.
pub open spec fn reads_as_lower(s: Seq<char>, t: Seq<char>) -> bool {
    s.len() == t.len() && forall|k: int| 0 <= k < s.len() ==> char_reads_as(s[k], #[trigger] t[k])
}

/// Exact comparison of two strings, character by character.
pub fn str_eq(a: &str, b: &str) -> (r: bool)
    ensures
        r == (a@ == b@),
{
    let na = a.unicode_len();
    let nb = b.unicode_len();
    if na != nb {
        return false;
    }
    let mut i: usize = 0;
    while i < na
        invariant
            0 <= i <= a@.len(),
            na == a@.len(),
            a@.len() == b@.len(),
            forall|j: int| 0 <= j < i ==> a@[j] == #[trigger] b@[j],
        decreases a@.len() - i,
    {
        if a.get_char(i) != b.get_char(i) {
            return false;
        }
        i = i + 1;
    }
    proof {
        assert(a@ =~= b@);
    }
    true
}

/// Case-insensitive comparison of `s` against a known lower-case string `t`,
/// folding upper-case ASCII letters of `s` down.
pub fn eq_ignore_case(s: &str, t: &str) -> (r: bool)
    ensures
        r == reads_as_lower(s@, t@),
{
    let ns = s.unicode_len();
    let nt = t.unicode_len();
    if ns != nt {
        return false;
    }
    let mut k: usize = 0;
    while k < ns
        invariant
            0 <= k <= s@.len(),
            ns == s@.len(),
            s@.len() == t@.len(),
            forall|j: int| 0 <= j < k ==> char_reads_as(s@[j], #[trigger] t@[j]),
        decreases s@.len() - k,
    {
        let c = s.get_char(k);
        let d = t.get_char(k);
        let ok = c == d || ('a' <= d && d <= 'z' && (c as u32) + 32 == (d as u32));
        if !ok {
            return false;
        }
        k = k + 1;
    }
    true
}

} // verus!
