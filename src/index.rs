use vstd::prelude::*;

use crate::documents::{doc_tokens, Doc, Documents};
use crate::postings::{lemma_sorted_unique, strictly_increasing, with_id};
use crate::tokenizer::{query_tokens, texts, tokenize, N};

verus! {

/// Every posting list is ascending, without repeats, and not empty.
pub open spec fn valid_postings(m: Map<Seq<char>, Seq<u8>>) -> bool {
    forall|t: Seq<char>|
        #[trigger] m.contains_key(t) ==> strictly_increasing(m[t]) && m[t].len() > 0
}

/// The identifiers stored under `t`; none where `t` was never indexed.
pub open spec fn ids_of(m: Map<Seq<char>, Seq<u8>>, t: Seq<char>) -> Set<u8> {
    if m.contains_key(t) {
        m[t].to_set()
    } else {
        Set::empty()
    }
}

/// `after` is `before` with `id` added to the posting list of `t`, which is
/// created where it was absent.
pub open spec fn added(
    before: Map<Seq<char>, Seq<u8>>,
    t: Seq<char>,
    id: u8,
    after: Map<Seq<char>, Seq<u8>>,
) -> bool {
    &&& valid_postings(after)
    &&& after.dom() == before.dom().insert(t)
    &&& forall|k: Seq<char>| k != t && #[trigger] before.contains_key(k) ==> after[k] == before[k]
    &&& after[t].to_set() == ids_of(before, t).insert(id)
}

/// An inverted index: each token maps to the ascending list of the
/// identifiers of the documents that hold it.
pub struct InversedIndex {
    keys: Vec<String>,
    lists: Vec<Vec<u8>>,
    model: Ghost<Map<Seq<char>, Seq<u8>>>,
}

impl View for InversedIndex {
    type V = Map<Seq<char>, Seq<u8>>;

    closed spec fn view(&self) -> Self::V {
        self.model@
    }
}

impl InversedIndex {
    /// The stored tokens are distinct, each paired with its posting list,
    /// and they are exactly the keys of the model.
    pub closed spec fn wf(&self) -> bool {
        &&& self.keys@.len() == self.lists@.len()
        &&& forall|i: int, j: int|
            0 <= i < j < self.keys@.len() ==> self.keys@[i]@ != self.keys@[j]@
        &&& forall|i: int|
            0 <= i < self.keys@.len() ==> self.model@.contains_key((#[trigger] self.keys@[i])@)
                && self.model@[self.keys@[i]@] == self.lists@[i]@
        &&& forall|t: Seq<char>|
            #[trigger] self.model@.contains_key(t) ==> exists|i: int|
                0 <= i < self.keys@.len() && (#[trigger] self.keys@[i])@ == t
        &&& valid_postings(self.model@)
    }

    /// An index with no tokens.
    pub fn new() -> (r: Self)
        ensures
            r.wf(),
            r@ == Map::<Seq<char>, Seq<u8>>::empty(),
    {
        InversedIndex { keys: Vec::new(), lists: Vec::new(), model: Ghost(Map::empty()) }
    }

    /// Where `token` is stored.
    fn find(&self, token: &String) -> (r: Option<usize>)
        requires
            self.wf(),
        ensures
            match r {
                Some(i) => i < self.keys@.len() && self.keys@[i as int]@ == token@,
                None => !self@.contains_key(token@),
            },
    {
        let mut i: usize = 0;
        while i < self.keys.len()
            invariant
                self.wf(),
                i <= self.keys@.len(),
                forall|j: int| 0 <= j < i ==> (#[trigger] self.keys@[j])@ != token@,
            decreases self.keys@.len() - i,
        {
            if self.keys[i] == *token {
                return Some(i);
            }
            i = i + 1;
        }
        None
    }

    /// The posting list of `token`, or `None` where it was never indexed.
    pub fn lookup(&self, token: &String) -> (r: Option<&Vec<u8>>)
        requires
            self.wf(),
        ensures
            match r {
                Some(l) => self@.contains_key(token@) && l@ == self@[token@],
                None => !self@.contains_key(token@),
            },
    {
        match self.find(token) {
            Some(i) => Some(&self.lists[i]),
            None => None,
        }
    }

    /// Adds `id` to the posting list of `keyword`, creating the list where
    /// it is absent; adding an identifier already there changes nothing.
    pub fn add(&mut self, keyword: &String, id: u8)
        requires
            old(self).wf(),
        ensures
            final(self).wf(),
            added(old(self)@, keyword@, id, final(self)@),
    {
        match self.find(keyword) {
            Some(i) => {
                let merged = with_id(&self.lists[i], id);
                let ghost l = merged@;
                self.lists.set(i, merged);
                self.model = Ghost(self.model@.insert(keyword@, l));
                assert(self.model@.dom() =~= old(self)@.dom().insert(keyword@));
            },
            None => {
                let ghost l = seq![id];
                self.keys.push(keyword.clone());
                self.lists.push(vec![id]);
                self.model = Ghost(self.model@.insert(keyword@, l));
                assert(self.lists@.last()@ =~= l);
                assert(l.to_set() =~= Set::<u8>::empty().insert(id)) by {
                    assert(l[0] == id);
                }
                assert forall|t: Seq<char>| #[trigger] self.model@.contains_key(t) implies exists|i: int|
                    0 <= i < self.keys@.len() && (#[trigger] self.keys@[i])@ == t by {
                    if t == keyword@ {
                        assert(self.keys@[self.keys@.len() - 1]@ == t);
                    } else {
                        let i = choose|i: int|
                            0 <= i < old(self).keys@.len() && (#[trigger] old(self).keys@[i])@ == t;
                        assert(self.keys@[i]@ == t);
                    }
                }
            },
        }
    }
}

/// `x` is in each of the posting lists.
pub open spec fn in_every(lists: Seq<Seq<u8>>, x: u8) -> bool {
    forall|i: int| 0 <= i < lists.len() ==> (#[trigger] lists[i]).contains(x)
}

impl InversedIndex {
    /// The posting list that lane `i` walks.
    spec fn lane(&self, lanes: Seq<usize>, i: int) -> Seq<u8> {
        self.lists@[lanes[i] as int]@
    }

    /// The posting lists that the lanes walk, in lane order.
    spec fn lane_lists(&self, lanes: Seq<usize>) -> Seq<Seq<u8>> {
        Seq::new(lanes.len(), |i: int| self.lane(lanes, i))
    }

    /// Lock-step intersection of the posting lists at `lanes`, each walked by
    /// a cursor: every round the lanes whose current identifier is the
    /// smallest advance, and an identifier current in every lane is a match.
    fn intersect(&self, lanes: &Vec<usize>) -> (r: Vec<u8>)
        requires
            self.wf(),
            lanes@.len() > 0,
            forall|i: int| 0 <= i < lanes@.len() ==> #[trigger] lanes@[i] < self.lists@.len(),
        ensures
            strictly_increasing(r@),
            r@.to_set() == Set::new(|x: u8| in_every(self.lane_lists(lanes@), x)),
    {
        let k = lanes.len();
        let ghost ls = self.lane_lists(lanes@);
        assert forall|i: int| 0 <= i < k implies strictly_increasing(#[trigger] ls[i]) && ls[i].len() > 0 by {
            assert(self.model@.contains_key(self.keys@[lanes@[i] as int]@));
        }
        let mut cursors: Vec<usize> = Vec::new();
        while cursors.len() < k
            invariant
                cursors@.len() <= k,
                forall|i: int| 0 <= i < cursors@.len() ==> cursors@[i] == 0,
            decreases k - cursors@.len(),
        {
            cursors.push(0);
        }
        let mut result: Vec<u8> = Vec::new();
        let ghost mut floor: int = 0;
        loop
            invariant
                k == lanes@.len() == cursors@.len() == ls.len(),
                k > 0,
                self.wf(),
                ls == self.lane_lists(lanes@),
                forall|i: int| 0 <= i < k ==> #[trigger] lanes@[i] < self.lists@.len(),
                forall|i: int| 0 <= i < k ==> strictly_increasing(#[trigger] ls[i]),
                forall|i: int| 0 <= i < k ==> #[trigger] cursors@[i] < ls[i].len(),
                forall|i: int| 0 <= i < k ==> ls[i][cursors@[i] as int] >= floor,
                floor <= 256,
                strictly_increasing(result@),
                forall|i: int, a: int|
                    0 <= i < k && 0 <= a < result@.len() ==> result@[a] < ls[i][#[trigger] cursors@[i] as int]
                        && #[trigger] result@[a] == result@[a],
                forall|a: int| 0 <= a < result@.len() ==> in_every(ls, #[trigger] result@[a]),
                forall|i: int, p: int|
                    0 <= i < k && 0 <= p < cursors@[i] ==> result@.contains(#[trigger] ls[i][p])
                        || !in_every(ls, ls[i][p]),
            decreases 256 - floor,
        {
            // the smallest current identifier, and a lane that holds it
            let mut m: u8 = self.lists[lanes[0]][cursors[0]];
            let ghost mut im: int = 0;
            let mut i: usize = 1;
            while i < k
                invariant
                    k == lanes@.len() == cursors@.len() == ls.len(),
                    ls == self.lane_lists(lanes@),
                    forall|j: int| 0 <= j < k ==> #[trigger] lanes@[j] < self.lists@.len(),
                    forall|j: int| 0 <= j < k ==> #[trigger] cursors@[j] < ls[j].len(),
                    1 <= i <= k,
                    0 <= im < k,
                    m == ls[im][cursors@[im] as int],
                    forall|j: int| 0 <= j < i ==> m <= ls[j][#[trigger] cursors@[j] as int],
                decreases k - i,
            {
                let c = self.lists[lanes[i]][cursors[i]];
                if c < m {
                    m = c;
                    proof {
                        im = i as int;
                    }
                }
                i = i + 1;
            }
            // is it current in every lane?
            let mut all_eq = true;
            let ghost mut j0: int = 0;
            i = 0;
            while i < k
                invariant
                    k == lanes@.len() == cursors@.len() == ls.len(),
                    ls == self.lane_lists(lanes@),
                    forall|j: int| 0 <= j < k ==> #[trigger] lanes@[j] < self.lists@.len(),
                    forall|j: int| 0 <= j < k ==> #[trigger] cursors@[j] < ls[j].len(),
                    0 <= i <= k,
                    all_eq ==> forall|j: int| 0 <= j < i ==> ls[j][#[trigger] cursors@[j] as int] == m,
                    !all_eq ==> 0 <= j0 < k && ls[j0][cursors@[j0] as int] != m,
                decreases k - i,
            {
                if self.lists[lanes[i]][cursors[i]] != m {
                    all_eq = false;
                    proof {
                        j0 = i as int;
                    }
                }
                i = i + 1;
            }
            proof {
                if !all_eq {
                    assert(!in_every(ls, m)) by {
                        if in_every(ls, m) {
                            assert(ls[j0].contains(m));
                            let p = choose|p: int| 0 <= p < ls[j0].len() && ls[j0][p] == m;
                            if p >= cursors@[j0] {
                                assert(ls[j0][p] >= ls[j0][cursors@[j0] as int]);
                            } else {
                                assert(result@.contains(ls[j0][p]));
                                let a = choose|a: int| 0 <= a < result@.len() && result@[a] == m;
                                assert(result@[a] < ls[im][cursors@[im] as int]);
                            }
                        }
                    }
                } else {
                    assert forall|j: int| 0 <= j < k implies (#[trigger] ls[j]).contains(m) by {
                        assert(ls[j][cursors@[j] as int] == m);
                    }
                }
            }
            let ghost before = result@;
            if all_eq {
                result.push(m);
                proof {
                    assert(result@[result@.len() - 1] == m);
                    assert forall|j: int, p: int|
                        0 <= j < k && 0 <= p < cursors@[j] implies result@.contains(#[trigger] ls[j][p])
                            || !in_every(ls, ls[j][p]) by {
                        if before.contains(ls[j][p]) {
                            let a = choose|a: int| 0 <= a < before.len() && before[a] == ls[j][p];
                            assert(result@[a] == ls[j][p]);
                        }
                    }
                }
            }
            // advance the lanes that hold the smallest identifier
            let ghost start = cursors@;
            i = 0;
            while i < k
                invariant
                    k == lanes@.len() == cursors@.len() == ls.len() == start.len(),
                    self.wf(),
                    ls == self.lane_lists(lanes@),
                    forall|j: int| 0 <= j < k ==> #[trigger] lanes@[j] < self.lists@.len(),
                    forall|j: int| 0 <= j < k ==> strictly_increasing(#[trigger] ls[j]),
                    forall|j: int| 0 <= j < k ==> #[trigger] cursors@[j] < ls[j].len(),
                    forall|j: int| 0 <= j < k ==> #[trigger] start[j] < ls[j].len(),
                    forall|j: int| 0 <= j < k ==> ls[j][#[trigger] start[j] as int] >= m,
                    0 <= i <= k,
                    forall|j: int| i <= j < k ==> #[trigger] cursors@[j] == start[j],
                    forall|j: int| 0 <= j < i ==> ls[j][#[trigger] cursors@[j] as int] > m,
                    all_eq ==> result@ == before.push(m),
                    !all_eq ==> result@ == before,
                    all_eq ==> in_every(ls, m),
                    !all_eq ==> !in_every(ls, m),
                    forall|a: int| 0 <= a < before.len() ==> #[trigger] before[a] < m,
                    strictly_increasing(result@),
                    forall|a: int| 0 <= a < result@.len() ==> in_every(ls, #[trigger] result@[a]),
                    forall|j: int, p: int|
                        0 <= j < k && 0 <= p < cursors@[j] ==> result@.contains(#[trigger] ls[j][p])
                            || !in_every(ls, ls[j][p]),
                    m <= 255,
                decreases k - i,
            {
                let c = self.lists[lanes[i]][cursors[i]];
                if c == m {
                    let len_i = self.lists[lanes[i]].len();
                    assert(ls[i as int].len() == len_i);
                    if cursors[i] == len_i - 1 {
                        // this lane is used up: nothing later can be current in all lanes
                        proof {
                            let li = i as int;
                            assert forall|x: u8| #[trigger] result@.to_set().contains(x) == in_every(ls, x) by {
                                if result@.to_set().contains(x) {
                                    let a = choose|a: int| 0 <= a < result@.len() && result@[a] == x;
                                }
                                if in_every(ls, x) {
                                    assert(ls[li].contains(x));
                                    let p = choose|p: int| 0 <= p < ls[li].len() && ls[li][p] == x;
                                    if p < cursors@[li] {
                                        assert(result@.contains(ls[li][p]));
                                    } else {
                                        assert(x == m);
                                        assert(all_eq);
                                        assert(result@[result@.len() - 1] == m);
                                    }
                                }
                            }
                            assert(result@.to_set() =~= Set::new(|x: u8| in_every(ls, x)));
                        }
                        return result;
                    }
                    let next = cursors[i] + 1;
                    proof {
                        if all_eq {
                            assert(result@[result@.len() - 1] == m);
                            assert(result@.contains(m));
                        }
                    }
                    cursors.set(i, next);
                } else {
                    assert(ls[i as int][cursors@[i as int] as int] > m);
                }
                i = i + 1;
            }
            proof {
                floor = m + 1;
            }
        }
    }
}

/// The tokens that the words of a query stand for.
pub open spec fn search_tokens(words: Seq<String>) -> Seq<Seq<char>> {
    query_tokens(N as nat, texts(words))
}

/// The identifiers found in the posting list of every token of `toks`.
pub open spec fn common_ids(m: Map<Seq<char>, Seq<u8>>, toks: Seq<Seq<char>>) -> Set<u8> {
    Set::new(
        |x: u8|
            forall|k: int|
                0 <= k < toks.len() ==> m.contains_key(#[trigger] toks[k]) && m[toks[k]].contains(x),
    )
}

impl InversedIndex {
    /// The identifiers, ascending, of the documents that hold every token of
    /// the query words; none for a query without tokens.
    pub fn search(&self, words: Vec<String>) -> (r: Vec<u8>)
        requires
            self.wf(),
        ensures
            strictly_increasing(r@),
            search_tokens(words@).len() == 0 ==> r@.len() == 0,
            search_tokens(words@).len() > 0 ==> r@.to_set() == common_ids(self@, search_tokens(words@)),
            (exists|k: int|
                0 <= k < search_tokens(words@).len() && !self@.contains_key(
                    #[trigger] search_tokens(words@)[k],
                )) ==> r@.len() == 0,
            search_tokens(words@).len() == 1 && self@.contains_key(search_tokens(words@)[0]) ==> r@
                == self@[search_tokens(words@)[0]],
    {
        let ghost toks_spec = search_tokens(words@);
        let mut toks: Vec<String> = Vec::new();
        let mut w: usize = 0;
        while w < words.len()
            invariant
                w <= words@.len(),
                texts(toks@) == query_tokens(N as nat, texts(words@.subrange(0, w as int))),
            decreases words@.len() - w,
        {
            let mut t = tokenize(N, words[w].clone());
            let ghost prev = toks@;
            let ghost grams = t@;
            toks.append(&mut t);
            proof {
                let ws = texts(words@.subrange(0, w + 1));
                assert(ws.drop_last() =~= texts(words@.subrange(0, w as int)));
                assert(ws.last() == words@[w as int]@);
                assert(texts(toks@) =~= texts(prev) + texts(grams));
            }
            w = w + 1;
        }
        proof {
            assert(words@.subrange(0, words@.len() as int) =~= words@);
        }
        let k = toks.len();
        let mut result: Vec<u8> = Vec::new();
        if k == 0 {
            return result;
        }
        // the stored posting list of each token, in token order
        let mut lanes: Vec<usize> = Vec::new();
        let mut i: usize = 0;
        while i < k
            invariant
                self.wf(),
                k == toks@.len() == toks_spec.len(),
                toks_spec == search_tokens(words@),
                texts(toks@) == toks_spec,
                i <= k,
                result@.len() == 0,
                lanes@.len() == i,
                forall|j: int|
                    0 <= j < i ==> #[trigger] lanes@[j] < self.keys@.len() && self.keys@[lanes@[j] as int]@
                        == toks_spec[j],
            decreases k - i,
        {
            match self.find(&toks[i]) {
                Some(at) => lanes.push(at),
                None => {
                    proof {
                        assert(toks_spec[i as int] == toks@[i as int]@);
                        assert(!self@.contains_key(toks_spec[i as int]));
                        assert forall|x: u8| !common_ids(self@, toks_spec).contains(x) by {
                            assert(!self@.contains_key(toks_spec[i as int]));
                        }
                        assert(result@.to_set() =~= common_ids(self@, toks_spec));
                    }
                    return result;
                },
            }
            i = i + 1;
        }
        proof {
            assert forall|j: int| 0 <= j < k implies self@.contains_key(#[trigger] toks_spec[j])
                && self@[toks_spec[j]] == self.lists@[lanes@[j] as int]@ by {
                assert(self.keys@[lanes@[j] as int]@ == toks_spec[j]);
            }
        }
        if k == 1 {
            let list = &self.lists[lanes[0]];
            let mut p: usize = 0;
            while p < list.len()
                invariant
                    p <= list@.len(),
                    result@ == list@.subrange(0, p as int),
                decreases list@.len() - p,
            {
                result.push(list[p]);
                p = p + 1;
            }
            proof {
                assert(result@ =~= list@);
                assert(self@.contains_key(toks_spec[0]));
                assert(result@.to_set() =~= common_ids(self@, toks_spec)) by {
                    assert forall|x: u8| common_ids(self@, toks_spec).contains(x) == result@.contains(x) by {
                        if result@.contains(x) {
                            assert forall|kk: int| 0 <= kk < toks_spec.len() implies self@.contains_key(#[trigger] toks_spec[kk])
                                && self@[toks_spec[kk]].contains(x) by {
                                assert(kk == 0);
                            }
                        }
                    }
                }
            }
            return result;
        }
        result = self.intersect(&lanes);
        proof {
            let ls = self.lane_lists(lanes@);
            assert forall|x: u8| common_ids(self@, toks_spec).contains(x) == in_every(ls, x) by {
                if in_every(ls, x) {
                    assert forall|kk: int| 0 <= kk < toks_spec.len() implies self@.contains_key(#[trigger] toks_spec[kk])
                        && self@[toks_spec[kk]].contains(x) by {
                        assert(ls[kk].contains(x));
                    }
                }
                if common_ids(self@, toks_spec).contains(x) {
                    assert forall|j: int| 0 <= j < ls.len() implies (#[trigger] ls[j]).contains(x) by {
                        assert(self@[toks_spec[j]].contains(x));
                    }
                }
            }
            assert(common_ids(self@, toks_spec) =~= Set::new(|x: u8| in_every(ls, x)));
        }
        result
    }
}

/// `after` is `before` with `id` added under every token of `toks`.
pub open spec fn added_all(
    before: Map<Seq<char>, Seq<u8>>,
    toks: Seq<Seq<char>>,
    id: u8,
    after: Map<Seq<char>, Seq<u8>>,
) -> bool {
    &&& valid_postings(after)
    &&& after.dom() == before.dom() + toks.to_set()
    &&& forall|t: Seq<char>| #[trigger] after.contains_key(t) ==> after[t].to_set() == ids_of(before, t)
        + (if toks.contains(t) { set![id] } else { Set::empty() })
}

/// The identifiers of the documents of `docs` indexed under `t`.
pub open spec fn ids_holding(docs: Seq<Doc>, t: Seq<char>) -> Set<u8> {
    Set::new(
        |id: u8|
            exists|i: int| 0 <= i < docs.len() && docs[i].id == id && doc_tokens(#[trigger] docs[i]).contains(t),
    )
}

/// The tokens of all the documents of `docs`.
pub open spec fn tokens_of(docs: Seq<Doc>) -> Set<Seq<char>> {
    Set::new(|t: Seq<char>| exists|i: int| 0 <= i < docs.len() && doc_tokens(#[trigger] docs[i]).contains(t))
}

/// `after` is `before` with every document of `docs` indexed: each token of
/// a document lists that document's identifier, and nothing else changed.
pub open spec fn built(before: Map<Seq<char>, Seq<u8>>, docs: Seq<Doc>, after: Map<Seq<char>, Seq<u8>>) -> bool {
    &&& valid_postings(after)
    &&& after.dom() == before.dom() + tokens_of(docs)
    &&& forall|t: Seq<char>| #[trigger] after.contains_key(t) ==> after[t].to_set() == ids_of(before, t)
        + ids_holding(docs, t)
}

proof fn lemma_added_one(m0: Map<Seq<char>, Seq<u8>>, t: Seq<char>, id: u8, m1: Map<Seq<char>, Seq<u8>>)
    requires
        added(m0, t, id, m1),
    ensures
        added_all(m0, seq![t], id, m1),
{
    let s = seq![t];
    assert(s.to_set() =~= set![t]) by {
        assert(s[0] == t);
    }
    assert(m1.dom() =~= m0.dom() + s.to_set());
    assert forall|u: Seq<char>| #[trigger] m1.contains_key(u) implies m1[u].to_set() == ids_of(m0, u)
        + (if s.contains(u) { set![id] } else { Set::empty() }) by {
        assert(s.contains(u) == (u == t)) by {
            assert(s.to_set().contains(u) == s.contains(u));
        }
        if u == t {
            assert(ids_of(m0, u).insert(id) =~= ids_of(m0, u) + set![id]);
        } else {
            assert(ids_of(m0, u) + Set::empty() =~= ids_of(m0, u));
        }
    }
}

proof fn lemma_added_none(m: Map<Seq<char>, Seq<u8>>, id: u8)
    requires
        valid_postings(m),
    ensures
        added_all(m, Seq::empty(), id, m),
{
    assert(m.dom() =~= m.dom() + Seq::<Seq<char>>::empty().to_set());
    assert forall|u: Seq<char>| #[trigger] m.contains_key(u) implies m[u].to_set() == ids_of(m, u)
        + Set::<u8>::empty() by {
        assert(m[u].to_set() + Set::<u8>::empty() =~= m[u].to_set());
    }
}

proof fn lemma_added_then(
    m0: Map<Seq<char>, Seq<u8>>,
    s1: Seq<Seq<char>>,
    s2: Seq<Seq<char>>,
    id: u8,
    m1: Map<Seq<char>, Seq<u8>>,
    m2: Map<Seq<char>, Seq<u8>>,
)
    requires
        added_all(m0, s1, id, m1),
        added_all(m1, s2, id, m2),
    ensures
        added_all(m0, s1 + s2, id, m2),
{
    let s = s1 + s2;
    assert forall|u: Seq<char>| s.contains(u) == (s1.contains(u) || s2.contains(u)) by {
        if s.contains(u) {
            let k = choose|k: int| 0 <= k < s.len() && s[k] == u;
            if k < s1.len() {
                assert(s1[k] == u);
            } else {
                assert(s2[k - s1.len()] == u);
            }
        }
        if s1.contains(u) {
            let k = choose|k: int| 0 <= k < s1.len() && s1[k] == u;
            assert(s[k] == u);
        }
        if s2.contains(u) {
            let k = choose|k: int| 0 <= k < s2.len() && s2[k] == u;
            assert(s[k + s1.len()] == u);
        }
    }
    assert forall|u: Seq<char>| s.to_set().contains(u) == (s1.to_set().contains(u) || s2.to_set().contains(u)) by {
        assert(s.to_set().contains(u) == s.contains(u));
        assert(s1.to_set().contains(u) == s1.contains(u));
        assert(s2.to_set().contains(u) == s2.contains(u));
    }
    assert(m2.dom() =~= m0.dom() + s.to_set());
    assert forall|u: Seq<char>| #[trigger] m2.contains_key(u) implies m2[u].to_set() == ids_of(m0, u)
        + (if s.contains(u) { set![id] } else { Set::empty() }) by {
        if m1.contains_key(u) {
            assert(m2[u].to_set() =~= ids_of(m0, u) + (if s.contains(u) { set![id] } else { Set::empty() }));
        } else {
            assert(!m0.contains_key(u));
            assert(!s1.to_set().contains(u));
            assert(m2[u].to_set() =~= ids_of(m0, u) + (if s.contains(u) { set![id] } else { Set::empty() }));
        }
    }
}

proof fn lemma_built_next(
    b: Map<Seq<char>, Seq<u8>>,
    docs: Seq<Doc>,
    d: Doc,
    m1: Map<Seq<char>, Seq<u8>>,
    m2: Map<Seq<char>, Seq<u8>>,
)
    requires
        built(b, docs, m1),
        added_all(m1, doc_tokens(d), d.id, m2),
    ensures
        built(b, docs.push(d), m2),
{
    let ds = docs.push(d);
    assert forall|t: Seq<char>| #[trigger] tokens_of(ds).contains(t) == (tokens_of(docs).contains(t)
        || doc_tokens(d).to_set().contains(t)) by {
        if tokens_of(ds).contains(t) {
            let i = choose|i: int| 0 <= i < ds.len() && doc_tokens(#[trigger] ds[i]).contains(t);
            if i < docs.len() {
                assert(docs[i] == ds[i]);
            }
        }
        if tokens_of(docs).contains(t) {
            let i = choose|i: int| 0 <= i < docs.len() && doc_tokens(#[trigger] docs[i]).contains(t);
            assert(ds[i] == docs[i]);
        }
        if doc_tokens(d).to_set().contains(t) {
            assert(ds[docs.len() as int] == d);
        }
    }
    assert(m2.dom() =~= b.dom() + tokens_of(ds));
    assert forall|t: Seq<char>| #[trigger] m2.contains_key(t) implies m2[t].to_set() == ids_of(b, t)
        + ids_holding(ds, t) by {
        assert forall|x: u8| #[trigger] ids_holding(ds, t).contains(x) == (ids_holding(docs, t).contains(x)
            || (doc_tokens(d).contains(t) && x == d.id)) by {
            if ids_holding(ds, t).contains(x) {
                let i = choose|i: int| 0 <= i < ds.len() && ds[i].id == x && doc_tokens(#[trigger] ds[i]).contains(t);
                if i < docs.len() {
                    assert(docs[i] == ds[i]);
                }
            }
            if ids_holding(docs, t).contains(x) {
                let i = choose|i: int| 0 <= i < docs.len() && docs[i].id == x && doc_tokens(#[trigger] docs[i]).contains(t);
                assert(ds[i] == docs[i]);
            }
            if doc_tokens(d).contains(t) && x == d.id {
                assert(ds[docs.len() as int] == d);
            }
        }
        if m1.contains_key(t) {
            assert(m2[t].to_set() =~= ids_of(b, t) + ids_holding(ds, t));
        } else {
            assert(!b.contains_key(t));
            assert forall|x: u8| !ids_holding(docs, t).contains(x) by {
                if ids_holding(docs, t).contains(x) {
                    let i = choose|i: int| 0 <= i < docs.len() && docs[i].id == x && doc_tokens(#[trigger] docs[i]).contains(t);
                    assert(tokens_of(docs).contains(t));
                }
            }
            assert(m2[t].to_set() =~= ids_of(b, t) + ids_holding(ds, t));
        }
    }
}

impl InversedIndex {
    /// Adds `id` under every token of `words`.
    fn add_all(&mut self, words: &Vec<String>, id: u8)
        requires
            old(self).wf(),
        ensures
            final(self).wf(),
            added_all(old(self)@, texts(words@), id, final(self)@),
    {
        proof {
            lemma_added_none(self@, id);
            assert(texts(words@.subrange(0, 0)) =~= Seq::empty());
        }
        let mut j: usize = 0;
        while j < words.len()
            invariant
                self.wf(),
                j <= words@.len(),
                added_all(old(self)@, texts(words@.subrange(0, j as int)), id, self@),
            decreases words@.len() - j,
        {
            let ghost m = self@;
            self.add(&words[j], id);
            proof {
                lemma_added_one(m, words@[j as int]@, id, self@);
                lemma_added_then(old(self)@, texts(words@.subrange(0, j as int)), seq![words@[j as int]@], id, m, self@);
                assert(texts(words@.subrange(0, j as int)) + seq![words@[j as int]@] =~= texts(words@.subrange(0, j + 1)));
            }
            j = j + 1;
        }
        proof {
            assert(words@.subrange(0, words@.len() as int) =~= words@);
        }
    }

    /// Indexes every document: its identifier is added under its title, its
    /// author and each of its content tokens.
    pub fn build(&mut self, documents: &Documents)
        requires
            old(self).wf(),
        ensures
            final(self).wf(),
            built(old(self)@, documents.docs@, final(self)@),
    {
        let ghost docs = documents.docs@;
        proof {
            assert(self@.dom() =~= self@.dom() + tokens_of(docs.subrange(0, 0)));
            assert forall|t: Seq<char>| #[trigger] self@.contains_key(t) implies self@[t].to_set() == ids_of(self@, t)
                + ids_holding(docs.subrange(0, 0), t) by {
                assert(self@[t].to_set() =~= ids_of(self@, t) + ids_holding(docs.subrange(0, 0), t));
            }
        }
        let mut i: usize = 0;
        while i < documents.docs.len()
            invariant
                self.wf(),
                docs == documents.docs@,
                i <= docs.len(),
                built(old(self)@, docs.subrange(0, i as int), self@),
            decreases docs.len() - i,
        {
            let doc = &documents.docs[i];
            let ghost m0 = self@;
            self.add(&doc.title, doc.id);
            let ghost m1 = self@;
            self.add(&doc.author, doc.id);
            let ghost m2 = self@;
            self.add_all(&doc.content, doc.id);
            proof {
                lemma_added_one(m0, doc.title@, doc.id, m1);
                lemma_added_one(m1, doc.author@, doc.id, m2);
                lemma_added_then(m0, seq![doc.title@], seq![doc.author@], doc.id, m1, m2);
                lemma_added_then(m0, seq![doc.title@] + seq![doc.author@], texts(doc.content@), doc.id, m2, self@);
                assert(seq![doc.title@] + seq![doc.author@] =~= seq![doc.title@, doc.author@]);
                lemma_built_next(old(self)@, docs.subrange(0, i as int), *doc, m0, self@);
                assert(docs.subrange(0, i as int).push(*doc) =~= docs.subrange(0, i + 1));
            }
            i = i + 1;
        }
        proof {
            assert(docs.subrange(0, docs.len() as int) =~= docs);
        }
    }
}

impl InversedIndex {
    /// The stored tokens, each once.
    pub fn tokens(&self) -> (r: &Vec<String>)
        requires
            self.wf(),
        ensures
            forall|i: int| 0 <= i < r@.len() ==> self@.contains_key((#[trigger] r@[i])@),
            forall|t: Seq<char>| #[trigger] self@.contains_key(t) ==> exists|i: int|
                0 <= i < r@.len() && (#[trigger] r@[i])@ == t,
            forall|i: int, j: int| 0 <= i < j < r@.len() ==> r@[i]@ != r@[j]@,
    {
        &self.keys
    }
}

/// The index of a document collection: a fresh index with every document
/// added.
pub fn generate_index(documents: &Documents) -> (r: InversedIndex)
    ensures
        r.wf(),
        built(Map::empty(), documents.docs@, r@),
{
    let mut ii = InversedIndex::new();
    ii.build(documents);
    ii
}

/// Indexing the same collection twice, each time from an empty index, gives
/// the same posting lists, element for element and in the same order.
pub proof fn lemma_build_deterministic(
    docs: Seq<Doc>,
    a: Map<Seq<char>, Seq<u8>>,
    b: Map<Seq<char>, Seq<u8>>,
)
    requires
        built(Map::empty(), docs, a),
        built(Map::empty(), docs, b),
    ensures
        a == b,
{
    assert(a.dom() =~= b.dom());
    assert forall|t: Seq<char>| #[trigger] a.contains_key(t) implies a[t] == b[t] by {
        assert(b.contains_key(t));
        lemma_sorted_unique(a[t], b[t]);
    }
    assert(a =~= b);
}

/// Adding the same identifier under the same token a second time leaves the
/// index as the first addition left it: a posting list never holds an entry
/// twice.
pub proof fn lemma_add_twice(
    m0: Map<Seq<char>, Seq<u8>>,
    t: Seq<char>,
    id: u8,
    m1: Map<Seq<char>, Seq<u8>>,
    m2: Map<Seq<char>, Seq<u8>>,
)
    requires
        added(m0, t, id, m1),
        added(m1, t, id, m2),
    ensures
        m2 == m1,
{
    assert(m1.contains_key(t) && m2.contains_key(t));
    assert(m1[t].to_set().contains(id));
    assert(m2[t].to_set() =~= m1[t].to_set());
    lemma_sorted_unique(m2[t], m1[t]);
    assert(m2 =~= m1);
}

} // verus!
