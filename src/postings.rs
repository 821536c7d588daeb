use vstd::prelude::*;

verus! {

/// Each element is smaller than every later one: ascending, no repeats.
pub open spec fn strictly_increasing(s: Seq<u8>) -> bool {
    forall|i: int, j: int| 0 <= i < j < s.len() ==> s[i] < s[j]
}

/// Two ascending, repeat-free sequences with the same elements are equal.
pub proof fn lemma_sorted_unique(a: Seq<u8>, b: Seq<u8>)
    requires
        strictly_increasing(a),
        strictly_increasing(b),
        a.to_set() == b.to_set(),
    ensures
        a == b,
    decreases a.len(),
{
    if a.len() == 0 {
        if b.len() > 0 {
            assert(b.to_set().contains(b[0]));
        }
        assert(a =~= b);
    } else {
        assert(a.to_set().contains(a[0]));
        assert(b.to_set().contains(a[0]));
        let j = choose|j: int| 0 <= j < b.len() && b[j] == a[0];
        assert(b.to_set().contains(b[0]));
        assert(a.to_set().contains(b[0]));
        let i = choose|i: int| 0 <= i < a.len() && a[i] == b[0];
        assert(a[0] == b[0]);
        let ta = a.drop_first();
        let tb = b.drop_first();
        assert(ta.to_set() =~= tb.to_set()) by {
            assert forall|x: u8| ta.to_set().contains(x) implies tb.to_set().contains(x) by {
                let k = choose|k: int| 0 <= k < ta.len() && ta[k] == x;
                assert(a.to_set().contains(x));
                let m = choose|m: int| 0 <= m < b.len() && b[m] == x;
                assert(a[0] < a[k + 1]);
                assert(m != 0);
                assert(tb[m - 1] == x);
            }
            assert forall|x: u8| tb.to_set().contains(x) implies ta.to_set().contains(x) by {
                let k = choose|k: int| 0 <= k < tb.len() && tb[k] == x;
                assert(b.to_set().contains(x));
                let m = choose|m: int| 0 <= m < a.len() && a[m] == x;
                assert(b[0] < b[k + 1]);
                assert(m != 0);
                assert(ta[m - 1] == x);
            }
        }
        lemma_sorted_unique(ta, tb);
        assert(a =~= seq![a[0]] + ta);
        assert(b =~= seq![b[0]] + tb);
    }
}

/// Placing `x` at `p`, between the smaller and the larger elements of an
/// ascending sequence, keeps it ascending and adds `x` to its elements.
pub proof fn lemma_insert_between(s: Seq<u8>, p: int, x: u8)
    requires
        strictly_increasing(s),
        0 <= p <= s.len(),
        forall|i: int| 0 <= i < p ==> s[i] < x,
        p < s.len() ==> x < s[p],
    ensures
        strictly_increasing(s.insert(p, x)),
        s.insert(p, x).to_set() == s.to_set().insert(x),
{
    let r = s.insert(p, x);
    assert forall|x2: u8| #[trigger] r.to_set().contains(x2) == s.to_set().insert(x).contains(x2) by {
        if r.to_set().contains(x2) {
            let k = choose|k: int| 0 <= k < r.len() && r[k] == x2;
            if k < p {
                assert(s[k] == x2);
            } else if k > p {
                assert(s[k - 1] == x2);
            }
        }
        if s.to_set().contains(x2) {
            let k = choose|k: int| 0 <= k < s.len() && s[k] == x2;
            if k < p {
                assert(r[k] == x2);
            } else {
                assert(r[k + 1] == x2);
            }
        }
        if x2 == x {
            assert(r[p] == x);
        }
    }
    assert(r.to_set() =~= s.to_set().insert(x));
}

/// The posting list `list` with `id` added in its place; unchanged when `id`
/// is already there.
pub fn with_id(list: &Vec<u8>, id: u8) -> (r: Vec<u8>)
    requires
        strictly_increasing(list@),
    ensures
        strictly_increasing(r@),
        r@.to_set() == list@.to_set().insert(id),
        r@.len() > 0,
{
    let len = list.len();
    let mut p: usize = 0;
    while p < len && list[p] < id
        invariant
            p <= len == list@.len(),
            forall|i: int| 0 <= i < p ==> list@[i] < id,
        decreases len - p,
    {
        p = p + 1;
    }
    let present = p < len && list[p] == id;
    let mut r: Vec<u8> = Vec::new();
    let mut k: usize = 0;
    while k < p
        invariant
            k <= p <= len == list@.len(),
            r@ == list@.subrange(0, k as int),
        decreases p - k,
    {
        r.push(list[k]);
        k = k + 1;
    }
    if !present {
        r.push(id);
    }
    let ghost extra: Seq<u8> = if present { Seq::empty() } else { seq![id] };
    while k < len
        invariant
            p <= k <= len == list@.len(),
            r@ == list@.subrange(0, p as int) + extra + list@.subrange(p as int, k as int),
        decreases len - k,
    {
        r.push(list[k]);
        k = k + 1;
        assert(r@ =~= list@.subrange(0, p as int) + extra + list@.subrange(p as int, k as int));
    }
    if present {
        assert(r@ =~= list@);
        assert(list@.to_set().contains(id)) by {
            assert(list@[p as int] == id);
        }
        assert(list@.to_set().insert(id) =~= list@.to_set());
        assert(r@.len() > p);
    } else {
        assert(r@ =~= list@.insert(p as int, id));
        proof {
            lemma_insert_between(list@, p as int, id);
        }
    }
    r
}

} // verus!
