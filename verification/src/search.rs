//! Streaming substring search: one pass over a buffer's characters with a
//! growing, unordered list of live candidates, one per offset where a match
//! could still be starting.  Overlapping matches are all reported; an empty
//! query never matches.

use vstd::prelude::*;
use crate::region::Region;
use crate::text::{rope_char_at, rope_len_chars, rope_text};

verus! {

/// The query occurs in `t` at offset `b`.
pub open spec fn is_match(t: Seq<char>, q: Seq<char>, b: int) -> bool {
    &&& q.len() > 0
    &&& 0 <= b
    &&& b + q.len() <= t.len()
    &&& t.subrange(b, b + q.len() as int) == q
}

/// Offset `o` lies inside some occurrence of the query in `t`.
pub open spec fn in_some_match(t: Seq<char>, q: Seq<char>, o: int) -> bool {
    exists|b: int| is_match(t, q, b) && b <= o < b + q.len()
}

/// A candidate anchored at `b` is still live after the first `pos` characters
/// were consumed: everything consumed since `b` matched a proper prefix of
/// the query.
pub open spec fn alive(t: Seq<char>, q: Seq<char>, b: int, pos: int) -> bool {
    &&& q.len() > 0
    &&& 0 <= b <= pos <= t.len()
    &&& pos - b < q.len()
    &&& t.subrange(b, pos) == q.subrange(0, pos - b)
}

/// A live candidate whose next character matches has consumed one more
/// matched prefix character.
proof fn lemma_alive_extend(t: Seq<char>, q: Seq<char>, b: int, pos: int)
    requires
        alive(t, q, b, pos),
        pos < t.len(),
        t[pos] == q[pos - b],
    ensures
        t.subrange(b, pos + 1) =~= q.subrange(0, pos + 1 - b),
{
    let lhs = t.subrange(b, pos + 1);
    let rhs = q.subrange(0, pos + 1 - b);
    assert forall|k: int| 0 <= k < lhs.len() implies lhs[k] == rhs[k] by {
        if k < pos - b {
            assert(t.subrange(b, pos)[k] == q.subrange(0, pos - b)[k]);
        }
    }
}

/// A prefix matched one position further restricts to a matched prefix.
proof fn lemma_alive_restrict(t: Seq<char>, q: Seq<char>, b: int, pos: int)
    requires
        q.len() > 0,
        0 <= b <= pos < t.len(),
        pos + 1 - b <= q.len(),
        t.subrange(b, pos + 1) == q.subrange(0, pos + 1 - b),
    ensures
        t.subrange(b, pos) =~= q.subrange(0, pos - b),
        t[pos] == q[pos - b],
{
    let lhs = t.subrange(b, pos);
    let rhs = q.subrange(0, pos - b);
    assert forall|k: int| 0 <= k < lhs.len() implies lhs[k] == rhs[k] by {
        assert(t.subrange(b, pos + 1)[k] == q.subrange(0, pos + 1 - b)[k]);
    }
    assert(t.subrange(b, pos + 1)[pos - b] == t[pos]);
    assert(q.subrange(0, pos + 1 - b)[pos - b] == q[pos - b]);
    assert(t.subrange(b, pos + 1)[pos - b] == q.subrange(0, pos + 1 - b)[pos - b]);
}

/// A full match at `b` is a live candidate while it is being consumed, and
/// its next character always matches.
proof fn lemma_match_alive(t: Seq<char>, q: Seq<char>, b: int, pos: int)
    requires
        is_match(t, q, b),
        b <= pos,
        pos - b < q.len(),
    ensures
        alive(t, q, b, pos),
        t[pos] == q[pos - b],
{
    let m = t.subrange(b, b + q.len() as int);
    assert forall|k: int| 0 <= k < pos - b implies t.subrange(b, pos)[k] == q.subrange(
        0,
        pos - b,
    )[k] by {
        assert(m[k] == q[k]);
    }
    assert(t.subrange(b, pos) =~= q.subrange(0, pos - b));
    assert(m[pos - b] == q[pos - b]);
}

/// A live candidate dies at a mismatching character.
proof fn lemma_alive_mismatch(t: Seq<char>, q: Seq<char>, b: int, pos: int)
    requires
        q.len() > 0,
        0 <= b <= pos < t.len(),
        pos - b < q.len() ==> t[pos] != q[pos - b],
    ensures
        !alive(t, q, b, pos + 1),
{
    if alive(t, q, b, pos + 1) {
        assert(t.subrange(b, pos + 1)[pos - b] == q.subrange(0, pos + 1 - b)[pos - b]);
    }
}

/// Swap-removal from a duplicate-free list removes exactly the element at
/// the removed slot; the result stays duplicate-free, every slot before the
/// removed one is unchanged, and the rest shift as the last element fills
/// the hole.
proof fn lemma_swap_remove_set(s: Seq<usize>, i: int)
    requires
        0 <= i < s.len(),
        forall|j1: int, j2: int| 0 <= j1 < j2 < s.len() ==> s[j1] != s[j2],
    ensures
        ({
            let r = s.update(i, s.last()).drop_last();
            &&& r.len() == s.len() - 1
            &&& (forall|j1: int, j2: int| 0 <= j1 < j2 < r.len() ==> r[j1] != r[j2])
            &&& (forall|j: int| 0 <= j < r.len() && j != i ==> r[j] == s[j])
            &&& (i < r.len() ==> r[i] == s[s.len() - 1])
            &&& (forall|x: usize| r.contains(x) <==> (s.contains(x) && x != s[i]))
        }),
{
    let r = s.update(i, s.last()).drop_last();
    assert forall|x: usize| r.contains(x) implies (s.contains(x) && x != s[i]) by {
        let j = choose|j: int| 0 <= j < r.len() && r[j] == x;
        if j == i {
            assert(s[s.len() - 1] == x);
        } else {
            assert(s[j] == x);
        }
    }
    assert forall|x: usize| s.contains(x) && x != s[i] implies r.contains(x) by {
        let j = choose|j: int| 0 <= j < s.len() && s[j] == x;
        if j == s.len() - 1 {
            assert(r[i] == x);
        } else {
            assert(r[j] == x);
        }
    }
}

/// Lazy, forward-only stream of the query's matches over a rope's
/// characters, in order of their end offset.  Keeps one live candidate per
/// offset where a match could still be starting, discarding dead ones by
/// swap-removal.
pub struct SearchIter<'q, 'r> {
    pub rope: &'r ropey::Rope,
    pub query: &'q Vec<char>,
    pub pos: usize,
    pub candidates: Vec<usize>,
}

impl<'q, 'r> SearchIter<'q, 'r> {
    pub open spec fn text(self) -> Seq<char> {
        rope_text(*self.rope)
    }

    pub open spec fn q(self) -> Seq<char> {
        self.query@
    }

    /// Between steps: the candidate list holds exactly the anchors that are
    /// still live, each once.
    pub open spec fn wf(self) -> bool {
        &&& self.pos <= self.text().len()
        &&& (forall|j1: int, j2: int|
            0 <= j1 < j2 < self.candidates@.len() ==> self.candidates@[j1]
                != self.candidates@[j2])
        &&& (forall|b: usize|
            #![trigger self.candidates@.contains(b)]
            self.candidates@.contains(b) <==> (alive(self.text(), self.q(), b as int, self.pos as int)
                && b < self.pos))
    }

    pub fn new(rope: &'r ropey::Rope, query: &'q Vec<char>) -> (r: SearchIter<'q, 'r>)
        ensures
            r.wf(),
            r.rope == rope,
            r.query == query,
            r.pos == 0,
    {
        SearchIter { rope, query, pos: 0, candidates: Vec::new() }
    }

    /// The next match, as a region over `[begin, begin + query.len() - 1]`,
    /// or `None` when no further match exists.  Matches come in increasing
    /// order of begin offset; every match of the query is produced exactly
    /// once, overlapping ones included.
    #[verifier::loop_isolation(false)]
    #[verifier::rlimit(100)]
    pub fn next(&mut self) -> (r: Option<Region>)
        requires
            old(self).wf(),
        ensures
            final(self).wf(),
            final(self).rope == old(self).rope,
            final(self).query == old(self).query,
            match r {
                Some(reg) => {
                    let t = old(self).text();
                    let q = old(self).q();
                    let b = reg.begin as int;
                    &&& is_match(t, q, b)
                    &&& reg.last == b + q.len() - 1
                    &&& reg.reversed == false
                    &&& b + q.len() > old(self).pos
                    &&& final(self).pos == b + q.len()
                    &&& forall|b2: int|
                        is_match(t, q, b2) && b2 < b ==> b2 + q.len() <= old(self).pos
                },
                None => {
                    let t = old(self).text();
                    let q = old(self).q();
                    &&& final(self).pos == t.len()
                    &&& forall|b2: int|
                        is_match(t, q, b2) ==> b2 + q.len() <= old(self).pos
                },
            },
    {
        let ghost t = self.text();
        let ghost q = self.q();
        let ghost entry = self.pos as int;
        let t_len: usize = rope_len_chars(self.rope);
        let qlen: usize = self.query.len();

        if qlen == 0 {
            self.pos = t_len;
            self.candidates = Vec::new();
            return None;
        }

        while self.pos < t_len
            invariant
                self.wf(),
                self.rope == old(self).rope,
                self.query == old(self).query,
                entry <= self.pos,
                forall|b2: int|
                    is_match(t, q, b2) ==> b2 + q.len() <= entry || b2 + q.len() > self.pos,
            decreases t_len - self.pos,
        {
            let pos: usize = self.pos;
            let c: char = rope_char_at(self.rope, pos);
            let ghost bstar: int = pos + 1 - qlen;

            let ghost before_push = self.candidates@;
            self.candidates.push(pos);
            proof {
                assert(!before_push.contains(pos));
                assert forall|j1: int, j2: int|
                    0 <= j1 < j2 < self.candidates@.len() implies self.candidates@[j1]
                    != self.candidates@[j2] by {
                    if j2 == self.candidates@.len() - 1 {
                        if before_push[j1] == pos {
                            assert(before_push.contains(pos));
                        }
                    }
                }
                // the freshly pushed candidate has matched the empty prefix
                assert(t.subrange(pos as int, pos as int) =~= q.subrange(0, 0));
                assert(alive(t, q, pos as int, pos as int));
                assert forall|j: int|
                    0 <= j < self.candidates@.len() implies alive(
                    t,
                    q,
                    (#[trigger] self.candidates@[j]) as int,
                    pos as int,
                ) && self.candidates@[j] <= pos by {
                    if j < before_push.len() {
                        assert(before_push.contains(before_push[j]));
                    }
                }
                if is_match(t, q, bstar) && bstar <= pos {
                    lemma_match_alive(t, q, bstar, pos as int);
                    if bstar < pos {
                        assert(before_push.contains(bstar as usize));
                        let j = choose|j: int|
                            0 <= j < before_push.len() && before_push[j] == bstar as usize;
                        assert(self.candidates@[j] == bstar as usize);
                    } else {
                        assert(self.candidates@[self.candidates@.len() - 1] == bstar as usize);
                    }
                }
                assert forall|b: usize|
                    alive(t, q, b as int, pos + 1) && b <= pos implies self.candidates@.contains(
                    b,
                ) by {
                    lemma_alive_restrict(t, q, b as int, pos as int);
                    assert(alive(t, q, b as int, pos as int));
                    if b < pos {
                        assert(before_push.contains(b));
                        let j = choose|j: int| 0 <= j < before_push.len() && before_push[j] == b;
                        assert(self.candidates@[j] == b);
                    } else {
                        assert(self.candidates@[self.candidates@.len() - 1] == b);
                    }
                }
            }

            let mut i: usize = 0;
            let mut found: Option<usize> = None;

            while i < self.candidates.len()
                invariant
                    self.rope == old(self).rope,
                    self.query == old(self).query,
                    self.pos == pos,
                    i <= self.candidates@.len(),
                    forall|j1: int, j2: int|
                        0 <= j1 < j2 < self.candidates@.len() ==> self.candidates@[j1]
                            != self.candidates@[j2],
                    forall|j: int|
                        0 <= j < self.candidates@.len() ==> (#[trigger] self.candidates@[j]) <= pos,
                    forall|j: int|
                        0 <= j < i ==> alive(t, q, (#[trigger] self.candidates@[j]) as int, pos + 1),
                    forall|j: int|
                        i <= j < self.candidates@.len() ==> alive(
                            t,
                            q,
                            (#[trigger] self.candidates@[j]) as int,
                            pos as int,
                        ),
                    forall|b: usize|
                        alive(t, q, b as int, pos + 1) && b <= pos
                            ==> #[trigger] self.candidates@.contains(b),
                    match found {
                        Some(b0) => b0 == bstar && is_match(t, q, b0 as int),
                        None => (is_match(t, q, bstar) && bstar <= pos) ==> (exists|j: int|
                            i <= j < self.candidates@.len() && self.candidates@[j] == bstar),
                    },
                decreases self.candidates@.len() - i,
            {
                let b: usize = self.candidates[i];
                let ghost pre = self.candidates@;
                proof {
                    assert(alive(t, q, b as int, pos as int));
                }
                let matched: usize = pos - b;
                if self.query[matched] == c {
                    proof {
                        lemma_alive_extend(t, q, b as int, pos as int);
                    }
                    if matched + 1 == qlen {
                        // the candidate has consumed the whole query: a match
                        self.candidates.swap_remove(i);
                        proof {
                            assert(q.subrange(0, q.len() as int) =~= q);
                            assert(is_match(t, q, b as int));
                            assert(b as int == bstar);
                            lemma_swap_remove_set(pre, i as int);
                        }
                        found = Some(b);
                    } else {
                        // still live, not yet complete
                        i += 1;
                        proof {
                            if found is None && is_match(t, q, bstar) && bstar <= pos {
                                let j0 = choose|j0: int|
                                    i - 1 <= j0 < pre.len() && pre[j0] == bstar;
                                assert(self.candidates@[j0] == bstar);
                            }
                        }
                    }
                } else {
                    // mismatch: the candidate dies
                    proof {
                        lemma_alive_mismatch(t, q, b as int, pos as int);
                        lemma_swap_remove_set(pre, i as int);
                    }
                    self.candidates.swap_remove(i);
                    proof {
                        if found is None && is_match(t, q, bstar) && bstar <= pos {
                            lemma_match_alive(t, q, bstar, pos as int);
                            assert(bstar != b as int);
                            let j0 = choose|j0: int| i <= j0 < pre.len() && pre[j0] == bstar;
                            if j0 == pre.len() - 1 {
                                assert(self.candidates@[i as int] == bstar);
                            } else {
                                assert(self.candidates@[j0] == bstar);
                            }
                        }
                    }
                }
            }

            if let Some(b) = found {
                self.pos = pos + 1;
                proof {
                    assert forall|b2: usize|
                        self.candidates@.contains(b2) implies (alive(t, q, b2 as int, self.pos as int)
                        && b2 < self.pos) by {
                        let j = choose|j: int|
                            0 <= j < self.candidates@.len() && self.candidates@[j] == b2;
                    }
                    assert forall|b2: int|
                        is_match(t, q, b2) && b2 < b implies b2 + q.len() <= entry by {
                        assert(b2 + q.len() <= entry || b2 + q.len() > pos as int);
                    }
                }
                return Some(Region { begin: b, last: pos, reversed: false });
            }
            proof {
                assert forall|b2: usize|
                    self.candidates@.contains(b2) implies (alive(t, q, b2 as int, pos + 1) && b2
                    < pos + 1) by {
                    let j = choose|j: int|
                        0 <= j < self.candidates@.len() && self.candidates@[j] == b2;
                }
                assert forall|b2: int|
                    is_match(t, q, b2) implies b2 + q.len() <= entry || b2 + q.len() > pos
                        + 1 by {
                    if b2 + q.len() == pos + 1 {
                        assert(b2 == bstar);
                        assert(false);
                    }
                }
            }
            self.pos = pos + 1;
        }
        None
    }

    /// Run the stream to its end and collect every remaining match: exactly
    /// the matches that end at or past the current position, in increasing
    /// order of begin offset, each as a region over
    /// `[begin, begin + query.len() - 1]`.
    #[verifier::loop_isolation(false)]
    pub fn collect_all(self) -> (r: Vec<Region>)
        requires
            self.wf(),
        ensures
            ({
                let t = self.text();
                let q = self.q();
                &&& forall|k: int|
                    0 <= k < r@.len() ==> {
                        let reg = (#[trigger] r@[k]);
                        &&& is_match(t, q, reg.begin as int)
                        &&& reg.last == reg.begin + q.len() - 1
                        &&& reg.reversed == false
                    }
                &&& forall|k1: int, k2: int|
                    0 <= k1 < k2 < r@.len() ==> r@[k1].begin < r@[k2].begin
                &&& forall|b: int|
                    is_match(t, q, b) && b + q.len() > self.pos ==> exists|k: int|
                        0 <= k < r@.len() && r@[k].begin == b
                &&& forall|k: int| 0 <= k < r@.len() ==> (#[trigger] r@[k]).begin + q.len() > self.pos
            }),
    {
        let ghost t = self.text();
        let ghost q = self.q();
        let ghost entry = self.pos as int;
        let mut it = self;
        let mut result: Vec<Region> = Vec::new();
        loop
            invariant
                it.wf(),
                it.text() == t,
                it.q() == q,
                entry <= it.pos,
                forall|k: int|
                    0 <= k < result@.len() ==> {
                        let reg = (#[trigger] result@[k]);
                        &&& is_match(t, q, reg.begin as int)
                        &&& reg.last == reg.begin + q.len() - 1
                        &&& reg.reversed == false
                        &&& reg.begin + q.len() > entry
                        &&& reg.begin + q.len() <= it.pos
                    },
                forall|k1: int, k2: int|
                    0 <= k1 < k2 < result@.len() ==> result@[k1].begin < result@[k2].begin,
                forall|b: int|
                    is_match(t, q, b) && b + q.len() > entry && b + q.len() <= it.pos
                        ==> exists|k: int| 0 <= k < result@.len() && result@[k].begin == b,
            decreases t.len() - it.pos,
        {
            let ghost round_pos = it.pos as int;
            let m = it.next();
            match m {
                Some(reg) => {
                    let ghost prev = result@;
                    result.push(reg);
                    proof {
                        assert forall|b: int|
                            is_match(t, q, b) && b + q.len() > entry && b + q.len()
                                <= it.pos implies exists|k: int|
                            0 <= k < result@.len() && result@[k].begin == b by {
                            if b + q.len() <= round_pos {
                                let k = choose|k: int|
                                    0 <= k < prev.len() && prev[k].begin == b;
                                assert(result@[k].begin == b);
                            } else {
                                assert(b == reg.begin);
                                assert(result@[result@.len() - 1].begin == b);
                            }
                        }
                    }
                },
                None => {
                    proof {
                        assert forall|b: int|
                            is_match(t, q, b) && b + q.len() > entry implies exists|k: int|
                            0 <= k < result@.len() && result@[k].begin == b by {
                            assert(b + q.len() <= t.len());
                        }
                    }
                    return result;
                },
            }
        }
    }
}

} // verus!
