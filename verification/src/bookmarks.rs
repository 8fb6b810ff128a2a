use vstd::prelude::*;
use std::collections::BTreeSet;
use vstd::std_specs::btree::spec_btree_keys_iter;
use vstd::std_specs::iter::IteratorSpec;
use vstd::std_specs::cmp::OrdSpec;

verus! {

broadcast use vstd::std_specs::btree::group_btree_axioms;

#[derive(Debug, Clone, Copy, PartialEq, Eq, Structural)]
pub enum BookmarkDirection {
    Next,
    Previous,
}

/// The bookmarked source lines (1-based) of one log.
#[derive(Debug, Clone, Default, PartialEq, Eq)]
pub struct BookmarkStore {
    lines: BTreeSet<u64>,
}

impl View for BookmarkStore {
    type V = Set<u64>;

    closed spec fn view(&self) -> Set<u64> {
        self.lines@
    }
}

/// The bookmark that `Next` reaches from `from`: the first one after it, or the first of
/// all when none is after it.
pub open spec fn spec_next_bookmark(s: Set<u64>, from: u64, found: u64) -> bool {
    &&& s.contains(found)
    &&& if exists|x: u64| s.contains(x) && x > from {
        found > from && forall|y: u64| s.contains(y) && y > from ==> found <= y
    } else {
        forall|y: u64| s.contains(y) ==> found <= y
    }
}

/// The bookmark that `Previous` reaches from `from`: the last one before it, or the last
/// of all when none is before it.
pub open spec fn spec_previous_bookmark(s: Set<u64>, from: u64, found: u64) -> bool {
    &&& s.contains(found)
    &&& if exists|x: u64| s.contains(x) && x < from {
        found < from && forall|y: u64| s.contains(y) && y < from ==> y <= found
    } else {
        forall|y: u64| s.contains(y) ==> y <= found
    }
}

/// The bookmarks once `line` is toggled: removed when present, added when absent; line zero
/// is never bookmarked.
pub open spec fn spec_toggled(s: Set<u64>, line: u64) -> Set<u64> {
    if line == 0 {
        s
    } else if s.contains(line) {
        s.remove(line)
    } else {
        s.insert(line)
    }
}

/// Toggling the same line twice leaves the bookmarks as they were.
pub proof fn lemma_toggle_twice(s: Set<u64>, line: u64)
    ensures
        spec_toggled(spec_toggled(s, line), line) == s,
{
    if line > 0 {
        if s.contains(line) {
            assert(s.remove(line).insert(line) =~= s);
        } else {
            assert(s.insert(line).remove(line) =~= s);
        }
    }
}

/// `v` lists the set `s` in increasing order.
pub open spec fn spec_lists(v: Seq<u64>, s: Set<u64>) -> bool {
    &&& forall|i: int, j: int| 0 <= i < j < v.len() ==> v[i] < v[j]
    &&& forall|x: u64| s.contains(x) <==> v.contains(x)
}

/// Line numbers obey the laws of a total order.
proof fn lemma_u64_ordered()
    ensures
        vstd::laws_cmp::obeys_cmp::<u64>(),
{
    broadcast use vstd::laws_cmp::group_laws_cmp;
    assert(vstd::laws_cmp::obeys_cmp::<u64>());
}

/// Keys an ordered iteration yields in increasing order are strictly increasing numbers.
proof fn lemma_increasing_keys(r: Seq<&u64>)
    requires
        vstd::std_specs::btree::increasing_seq(r),
    ensures
        forall|i: int, j: int| 0 <= i < j < r.len() ==> *r[i] < *r[j],
{
    broadcast use vstd::laws_cmp::group_laws_cmp;
    lemma_u64_ordered();
    assert(vstd::laws_cmp::obeys_cmp::<&u64>());
    vstd::std_specs::btree::axiom_increasing_seq_meaning::<&u64>(r);
    assert forall|i: int, j: int| 0 <= i < j < r.len() implies *r[i] < *r[j] by {
        assert(OrdSpec::cmp_spec(&r[i], &r[j]) is Less);
    }
}

impl BookmarkStore {
    /// No line zero is ever bookmarked.
    pub closed spec fn wf(self) -> bool {
        &&& !self.lines@.contains(0)
        &&& self.lines@.finite()
    }

    pub fn new() -> (r: Self)
        ensures
            r.wf(),
            r@ == Set::<u64>::empty(),
    {
        BookmarkStore { lines: BTreeSet::new() }
    }

    /// The store of the non-zero lines among `lines`.
    pub fn from_lines(lines: Vec<u64>) -> (r: Self)
        ensures
            r.wf(),
            forall|x: u64| r@.contains(x) <==> (x > 0 && lines@.contains(x)),
    {
        let mut store = BookmarkStore::new();
        let mut i: usize = 0;
        while i < lines.len()
            invariant
                0 <= i <= lines@.len(),
                store.wf(),
                forall|x: u64| store@.contains(x) <==> (x > 0 && lines@.take(i as int).contains(x)),
            decreases lines@.len() - i,
        {
            let line = lines[i];
            proof { lemma_u64_ordered(); }
            let ghost before = store@;
            if line > 0 {
                store.lines.insert(line);
            }
            proof {
                let t0 = lines@.take(i as int);
                let t1 = lines@.take(i + 1);
                assert(t1 =~= t0.push(line));
                assert forall|x: u64| #[trigger] t1.contains(x) <==> (t0.contains(x) || x == line) by {
                    if t0.contains(x) {
                        let k = choose|k: int| 0 <= k < t0.len() && #[trigger] t0[k] == x;
                        assert(t1[k] == x);
                    }
                    if x == line {
                        assert(t1[i as int] == x);
                    }
                    if t1.contains(x) && x != line {
                        let k = choose|k: int| 0 <= k < t1.len() && #[trigger] t1[k] == x;
                        assert(k < i);
                        assert(t0[k] == x);
                    }
                }
                if line > 0 {
                    assert(store@ == before.insert(line));
                } else {
                    assert(store@ == before);
                }
                assert forall|x: u64| store@.contains(x) <==> (x > 0 && t1.contains(x)) by {
                    assert(t1.contains(x) <==> (t0.contains(x) || x == line));
                }
            }
            i = i + 1;
        }
        proof {
            assert(lines@.take(lines@.len() as int) =~= lines@);
        }
        store
    }

    /// Adds or removes the bookmark on `line`; `true` when it is now bookmarked. Line zero
    /// is never bookmarked.
    pub fn toggle(&mut self, line: u64) -> (r: bool)
        requires
            old(self).wf(),
        ensures
            final(self).wf(),
            final(self)@ == spec_toggled(old(self)@, line),
            r == (line > 0 && !old(self)@.contains(line)),
    {
        proof { lemma_u64_ordered(); }
        if line == 0 {
            return false;
        }
        if self.lines.contains(&line) {
            self.lines.remove(&line);
            false
        } else {
            self.lines.insert(line);
            true
        }
    }

    pub fn contains(&self, line: u64) -> (r: bool)
        ensures
            r == self@.contains(line),
    {
        proof { lemma_u64_ordered(); }
        self.lines.contains(&line)
    }

    /// The bookmarked lines in increasing order.
    pub fn list(&self) -> (r: Vec<u64>)
        ensures
            spec_lists(r@, self@),
    {
        let mut out: Vec<u64> = Vec::new();
        let ghost keys: Seq<u64> = spec_btree_keys_iter(&self.lines).remaining().map_values(|k: &u64| *k);
        proof {
            vstd::std_specs::btree::axiom_spec_btree_keys_iter(&self.lines);
        }
        for x in it: self.lines.iter()
            invariant
                it.seq().map_values(|k: &u64| *k) == keys,
                out@ == keys.take(it.index() as int),
        {
            proof {
                assert(keys.take(it.index() + 1) =~= out@.push(*x));
            }
            out.push(*x);
        }
        proof {
            assert(out@ =~= keys);
            lemma_increasing_keys(spec_btree_keys_iter(&self.lines).remaining());
            assert forall|x: u64| self@.contains(x) <==> out@.contains(x) by {
                let r = spec_btree_keys_iter(&self.lines).remaining();
                if out@.contains(x) {
                    let k = choose|k: int| 0 <= k < out@.len() && out@[k] == x;
                    assert(r.unref().to_set().contains(r.unref()[k]));
                }
                if self@.contains(x) {
                    assert(r.unref().to_set().contains(x));
                    let k = choose|k: int| 0 <= k < r.unref().len() && r.unref()[k] == x;
                    assert(out@[k] == x);
                }
            }
        }
        out
    }

    /// The bookmark reached from `from` in `direction`, wrapping around; `None` without any.
    pub fn next(&self, from: u64, direction: BookmarkDirection) -> (r: Option<u64>)
        requires
            self.wf(),
        ensures
            self@.len() == 0 ==> r is None,
            self@.len() > 0 ==> (r matches Some(x) && match direction {
                BookmarkDirection::Next => spec_next_bookmark(self@, from, x),
                BookmarkDirection::Previous => spec_previous_bookmark(self@, from, x),
            }),
    {
        let lines = self.list();
        if lines.len() == 0 {
            proof {
                assert(self@ =~= Set::<u64>::empty());
            }
            return None;
        }
        proof {
            assert(self@.contains(lines@[0]));
        }
        // The first position whose line is not below `from`.
        let mut lo: usize = 0;
        let mut hi: usize = lines.len();
        while lo < hi
            invariant
                0 <= lo <= hi <= lines@.len(),
                spec_lists(lines@, self@),
                forall|k: int| 0 <= k < lo ==> lines@[k] < from,
                forall|k: int| hi <= k < lines@.len() ==> lines@[k] >= from,
            decreases hi - lo,
        {
            let mid = lo + (hi - lo) / 2;
            if lines[mid] < from {
                lo = mid + 1;
            } else {
                hi = mid;
            }
        }
        let n = lines.len();
        match direction {
            BookmarkDirection::Next => {
                let idx = if lo < n && lines[lo] == from { lo + 1 } else { lo };
                let found = if idx < n { lines[idx] } else { lines[0] };
                proof {
                    assert(self@.contains(found));
                    if exists|x: u64| self@.contains(x) && x > from {
                        let w = choose|x: u64| self@.contains(x) && x > from;
                        let kw = choose|k: int| 0 <= k < lines@.len() && lines@[k] == w;
                        assert(kw >= idx);
                        assert forall|y: u64| self@.contains(y) && y > from implies found <= y by {
                            let ky = choose|k: int| 0 <= k < lines@.len() && lines@[k] == y;
                            assert(ky >= idx);
                            if ky > idx {
                                assert(lines@[idx as int] < lines@[ky]);
                            }
                        }
                    } else {
                        if idx < n {
                            assert(self@.contains(lines@[idx as int]) && lines@[idx as int] > from);
                        }
                        assert forall|y: u64| self@.contains(y) implies found <= y by {
                            let ky = choose|k: int| 0 <= k < lines@.len() && lines@[k] == y;
                            if ky > 0 {
                                assert(lines@[0] < lines@[ky]);
                            }
                        }
                    }
                }
                Some(found)
            },
            BookmarkDirection::Previous => {
                let found = if lo == 0 { lines[n - 1] } else { lines[lo - 1] };
                proof {
                    assert(self@.contains(found));
                    if exists|x: u64| self@.contains(x) && x < from {
                        let w = choose|x: u64| self@.contains(x) && x < from;
                        let kw = choose|k: int| 0 <= k < lines@.len() && lines@[k] == w;
                        assert(kw < lo);
                        assert forall|y: u64| self@.contains(y) && y < from implies y <= found by {
                            let ky = choose|k: int| 0 <= k < lines@.len() && lines@[k] == y;
                            assert(ky < lo);
                            if ky < lo - 1 {
                                assert(lines@[ky] < lines@[lo - 1]);
                            }
                        }
                    } else {
                        if lo > 0 {
                            assert(self@.contains(lines@[lo - 1]) && lines@[lo - 1] < from);
                        }
                        assert forall|y: u64| self@.contains(y) implies y <= found by {
                            let ky = choose|k: int| 0 <= k < lines@.len() && lines@[k] == y;
                            if ky < n - 1 {
                                assert(lines@[ky] < lines@[n - 1]);
                            }
                        }
                    }
                }
                Some(found)
            },
        }
    }
}

} // verus!
