use vstd::prelude::*;

verus! {

/// Lexicographic order on texts by code point, a proper prefix first.
pub open spec fn text_lt(a: Seq<char>, b: Seq<char>) -> bool
    decreases a.len(),
{
    if b.len() == 0 {
        false
    } else if a.len() == 0 {
        true
    } else if a[0] != b[0] {
        (a[0] as u32) < (b[0] as u32)
    } else {
        text_lt(a.drop_first(), b.drop_first())
    }
}

pub proof fn lemma_text_lt_asym(a: Seq<char>, b: Seq<char>)
    ensures
        !(text_lt(a, b) && text_lt(b, a)),
    decreases a.len(),
{
    if a.len() > 0 && b.len() > 0 && a[0] == b[0] {
        lemma_text_lt_asym(a.drop_first(), b.drop_first());
    }
}

proof fn lemma_text_lt_skip(a: Seq<char>, b: Seq<char>, i: int)
    requires
        0 <= i <= a.len(),
        i <= b.len(),
        a.subrange(0, i) == b.subrange(0, i),
    ensures
        text_lt(a, b) == text_lt(a.subrange(i, a.len() as int), b.subrange(i, b.len() as int)),
    decreases i,
{
    if i > 0 {
        assert(a[0] == a.subrange(0, i)[0]);
        assert(b[0] == b.subrange(0, i)[0]);
        assert(a.drop_first().subrange(0, i - 1) == a.subrange(0, i).drop_first());
        assert(b.drop_first().subrange(0, i - 1) == b.subrange(0, i).drop_first());
        lemma_text_lt_skip(a.drop_first(), b.drop_first(), i - 1);
        assert(a.drop_first().subrange(i - 1, a.len() - 1) == a.subrange(i, a.len() as int));
        assert(b.drop_first().subrange(i - 1, b.len() - 1) == b.subrange(i, b.len() as int));
    } else {
        assert(a.subrange(0, a.len() as int) == a);
        assert(b.subrange(0, b.len() as int) == b);
    }
}

/// Whether `a` comes strictly before `b` in lexicographic order.
pub fn text_less(a: &str, b: &str) -> (r: bool)
    ensures
        r == text_lt(a@, b@),
{
    let la = a.unicode_len();
    let lb = b.unicode_len();
    let mut i: usize = 0;
    while i < la && i < lb && a.get_char(i) == b.get_char(i)
        invariant
            la == a@.len(),
            lb == b@.len(),
            i <= la,
            i <= lb,
            a@.subrange(0, i as int) == b@.subrange(0, i as int),
        decreases la - i,
    {
        assert(a@.subrange(0, i + 1) == a@.subrange(0, i as int).push(a@[i as int]));
        assert(b@.subrange(0, i + 1) == b@.subrange(0, i as int).push(b@[i as int]));
        i = i + 1;
    }
    proof {
        lemma_text_lt_skip(a@, b@, i as int);
    }
    let ghost sa = a@.subrange(i as int, la as int);
    let ghost sb = b@.subrange(i as int, lb as int);
    if i == lb {
        assert(sb.len() == 0);
        false
    } else if i == la {
        assert(sa.len() == 0);
        true
    } else {
        let ca = a.get_char(i);
        let cb = b.get_char(i);
        assert(sa[0] == ca);
        assert(sb[0] == cb);
        (ca as u32) < (cb as u32)
    }
}

/// Composite sort key: the number first, then the text, ascending or
/// descending as `desc` says.
pub open spec fn key_before(n1: i128, t1: Seq<char>, n2: i128, t2: Seq<char>, desc: bool) -> bool {
    n1 < n2 || (n1 == n2 && if desc { text_lt(t2, t1) } else { text_lt(t1, t2) })
}

/// `p` lists each index below `n` exactly once.
pub open spec fn is_index_perm(p: Seq<usize>, n: int) -> bool {
    &&& p.len() == n
    &&& forall|i: int| 0 <= i < p.len() ==> (#[trigger] p[i]) < n
    &&& forall|i: int, j: int| 0 <= i < p.len() && 0 <= j < p.len() && i != j ==> #[trigger] p[i] != #[trigger] p[j]
}

/// `v` is among the entries of `p`.
pub open spec fn lists(p: Seq<usize>, v: int) -> bool {
    exists|q: int| 0 <= q < p.len() && p[q] == v
}

/// Neighbours in `p` are in key order: no entry has a key before the
/// entry ahead of it.
pub open spec fn sorted_by_key(p: Seq<usize>, nums: Seq<i128>, texts: Seq<String>, desc: bool) -> bool {
    forall|k: int|
        0 <= k < p.len() - 1 ==> !key_before(
            nums[#[trigger] p[k + 1] as int],
            texts[p[k + 1] as int]@,
            nums[p[k] as int],
            texts[p[k] as int]@,
            desc,
        )
}

fn before_exec(n1: i128, t1: &String, n2: i128, t2: &String, desc: bool) -> (r: bool)
    ensures
        r == key_before(n1, t1@, n2, t2@, desc),
{
    if n1 < n2 {
        true
    } else if n1 > n2 {
        false
    } else if desc {
        text_less(t2, t1)
    } else {
        text_less(t1, t2)
    }
}

/// Indices of the entries in stable key order (insertion sort).
pub fn sort_indices(nums: &Vec<i128>, texts: &Vec<String>, desc: bool) -> (r: Vec<usize>)
    requires
        nums@.len() == texts@.len(),
    ensures
        is_index_perm(r@, nums@.len() as int),
        sorted_by_key(r@, nums@, texts@, desc),
        forall|v: int| 0 <= v < nums@.len() ==> #[trigger] lists(r@, v),
{
    let n = nums.len();
    let mut out: Vec<usize> = Vec::new();
    let mut i: usize = 0;
    while i < n
        invariant
            n == nums@.len(),
            n == texts@.len(),
            i <= n,
            is_index_perm(out@, i as int),
            sorted_by_key(out@, nums@, texts@, desc),
            forall|v: int| 0 <= v < i ==> #[trigger] lists(out@, v),
        decreases n - i,
    {
        let mut p: usize = 0;
        while p < out.len() && !before_exec(nums[i], &texts[i], nums[out[p]], &texts[out[p]], desc)
            invariant
                n == nums@.len(),
                n == texts@.len(),
                i < n,
                p <= out@.len(),
                is_index_perm(out@, i as int),
                forall|q: int| 0 <= q < p ==> !key_before(
                    nums[i as int],
                    texts[i as int]@,
                    nums[#[trigger] out@[q] as int],
                    texts[out@[q] as int]@,
                    desc,
                ),
            decreases out@.len() - p,
        {
            p = p + 1;
        }
        let ghost old_out = out@;
        proof {
            old_out.insert_ensures(p as int, i);
        }
        out.insert(p, i);
        proof {
            let s = out@;
            assert(s == old_out.insert(p as int, i));
            assert forall|a: int| 0 <= a < s.len() implies (#[trigger] s[a]) < i + 1 by {
                if a < p {
                    assert(s[a] == old_out[a]);
                } else if a > p {
                    assert(s[a] == old_out[a - 1]);
                }
            }
            assert forall|a: int, b: int|
                0 <= a < s.len() && 0 <= b < s.len() && a != b implies #[trigger] s[a] != #[trigger] s[b] by {
                let oa = if a < p { a } else { a - 1 };
                let ob = if b < p { b } else { b - 1 };
                if a != p && b != p {
                    assert(s[a] == old_out[oa]);
                    assert(s[b] == old_out[ob]);
                } else if a == p {
                    assert(s[b] == old_out[ob]);
                    assert(old_out[ob] < i);
                } else {
                    assert(s[a] == old_out[oa]);
                    assert(old_out[oa] < i);
                }
            }
            assert forall|v: int| 0 <= v < i + 1 implies #[trigger] lists(s, v) by {
                if v == i {
                    assert(s[p as int] == v);
                } else {
                    assert(lists(old_out, v));
                    let q = choose|q: int| 0 <= q < old_out.len() && old_out[q] == v;
                    if q < p {
                        assert(s[q] == v);
                    } else {
                        assert(s[q + 1] == v);
                    }
                }
            }
            assert forall|k: int| 0 <= k < s.len() - 1 implies !key_before(
                nums[#[trigger] s[k + 1] as int],
                texts[s[k + 1] as int]@,
                nums[s[k] as int],
                texts[s[k] as int]@,
                desc,
            ) by {
                if k + 1 < p {
                    assert(s[k] == old_out[k]);
                    assert(s[k + 1] == old_out[k + 1]);
                } else if k + 1 == p {
                    assert(s[k] == old_out[k]);
                } else if k == p {
                    assert(s[k + 1] == old_out[p as int]);
                    let j = old_out[p as int] as int;
                    lemma_text_lt_asym(texts[i as int]@, texts[j]@);
                } else {
                    assert(s[k] == old_out[k - 1]);
                    assert(s[k + 1] == old_out[k]);
                }
            }
        }
        i = i + 1;
    }
    out
}

} // verus!
