//! A ranked set: accounts ordered by non-increasing score, each at most once.

use vstd::prelude::*;

verus! {

/// Account identifier.
pub type AccountId = u64;

/// Score carried by the nodes of a ranked set.
pub type Score = u128;

/// Failures reported by a ranked set.
#[derive(Debug, Clone, Copy, PartialEq, Eq, Structural)]
pub enum ListError {
    /// The account is already in the list.
    Duplicate,
    /// The account is not in the list.
    NodeNotFound,
}

/// Accounts kept in non-increasing order of score, each account at most once.
pub struct SortedList {
    nodes: Vec<(AccountId, Score)>,
}

/// The scores of a node sequence never increase from front to back.
pub open spec fn sorted_desc(s: Seq<(AccountId, Score)>) -> bool {
    forall|i: int, j: int| 0 <= i < j < s.len() ==> s[i].1 >= s[j].1
}

/// No account occurs twice in a node sequence.
pub open spec fn keys_unique(s: Seq<(AccountId, Score)>) -> bool {
    forall|i: int, j: int| 0 <= i < j < s.len() ==> s[i].0 != s[j].0
}

/// Whether `k` is the account of some node.
pub open spec fn has_key(s: Seq<(AccountId, Score)>, k: AccountId) -> bool {
    exists|i: int| 0 <= i < s.len() && s[i].0 == k
}

/// The scores of a node sequence, by account.
pub open spec fn nodes_map(s: Seq<(AccountId, Score)>) -> Map<AccountId, Score> {
    Map::new(
        |k: AccountId| has_key(s, k),
        |k: AccountId| s[choose|i: int| 0 <= i < s.len() && s[i].0 == k].1,
    )
}

proof fn lemma_nodes_map_at(s: Seq<(AccountId, Score)>, i: int)
    requires
        keys_unique(s),
        0 <= i < s.len(),
    ensures
        nodes_map(s).contains_key(s[i].0),
        nodes_map(s)[s[i].0] == s[i].1,
{
    assert(has_key(s, s[i].0));
    let j = choose|j: int| 0 <= j < s.len() && s[j].0 == s[i].0;
    assert(j == i);
}

impl View for SortedList {
    type V = Map<AccountId, Score>;

    closed spec fn view(&self) -> Map<AccountId, Score> {
        nodes_map(self.nodes@)
    }
}

impl SortedList {
    /// The accounts in list order.
    pub closed spec fn order(&self) -> Seq<AccountId> {
        self.nodes@.map_values(|n: (AccountId, Score)| n.0)
    }

    /// The list's internal invariant: sorted and free of duplicates.
    pub closed spec fn wf(&self) -> bool {
        sorted_desc(self.nodes@) && keys_unique(self.nodes@)
    }

    /// The order lists each account of the view once, and nothing else.
    pub proof fn lemma_order(&self)
        requires
            self.wf(),
        ensures
            self.order().no_duplicates(),
            forall|k: AccountId| self@.contains_key(k) <==> self.order().contains(k),
            forall|i: int, j: int|
                0 <= i < j < self.order().len() ==> self@[self.order()[i]] >= self@[self.order()[
                    j
                ]],
    {
        let s = self.nodes@;
        assert forall|i: int| 0 <= i < s.len() implies nodes_map(s).contains_key(s[i].0)
            && nodes_map(s)[s[i].0] == s[i].1 by {
            lemma_nodes_map_at(s, i);
        }
        assert forall|k: AccountId| self@.contains_key(k) implies self.order().contains(k) by {
            let i = choose|i: int| 0 <= i < s.len() && s[i].0 == k;
            assert(self.order()[i] == k);
        }
        assert forall|k: AccountId| self.order().contains(k) implies self@.contains_key(k) by {
            let i = choose|i: int| 0 <= i < self.order().len() && self.order()[i] == k;
            assert(s[i].0 == k);
        }
    }

    /// An empty list.
    pub fn new() -> (r: SortedList)
        ensures
            r.wf(),
            r@ == Map::<AccountId, Score>::empty(),
    {
        let r = SortedList { nodes: Vec::new() };
        assert(r@ =~= Map::<AccountId, Score>::empty());
        r
    }

    fn find(&self, who: AccountId) -> (r: Option<usize>)
        requires
            self.wf(),
        ensures
            r matches Some(i) ==> i < self.nodes@.len() && self.nodes@[i as int].0 == who,
            r is None <==> !self@.contains_key(who),
    {
        let mut i: usize = 0;
        while i < self.nodes.len()
            invariant
                self.wf(),
                i <= self.nodes@.len(),
                forall|j: int| 0 <= j < i ==> self.nodes@[j].0 != who,
            decreases self.nodes@.len() - i,
        {
            if self.nodes[i].0 == who {
                proof {
                    lemma_nodes_map_at(self.nodes@, i as int);
                }
                return Some(i);
            }
            i += 1;
        }
        None
    }

    /// Whether `who` is in the list.
    pub fn contains(&self, who: AccountId) -> (r: bool)
        requires
            self.wf(),
        ensures
            r == self@.contains_key(who),
    {
        self.find(who).is_some()
    }

    /// The score of `who`.
    pub fn get_score(&self, who: AccountId) -> (r: Result<Score, ListError>)
        requires
            self.wf(),
        ensures
            self@.contains_key(who) ==> r == Ok::<Score, ListError>(self@[who]),
            !self@.contains_key(who) ==> r == Err::<Score, ListError>(ListError::NodeNotFound),
    {
        match self.find(who) {
            Some(i) => {
                proof {
                    lemma_nodes_map_at(self.nodes@, i as int);
                }
                Ok(self.nodes[i].1)
            },
            None => Err(ListError::NodeNotFound),
        }
    }

    /// The accounts in list order, highest score first.
    pub fn iter(&self) -> (r: Vec<AccountId>)
        requires
            self.wf(),
        ensures
            r@ == self.order(),
    {
        let mut r: Vec<AccountId> = Vec::new();
        let mut i: usize = 0;
        while i < self.nodes.len()
            invariant
                i <= self.nodes@.len(),
                r@ == self.nodes@.subrange(0, i as int).map_values(|n: (AccountId, Score)| n.0),
            decreases self.nodes@.len() - i,
        {
            r.push(self.nodes[i].0);
            i += 1;
            proof {
                assert(r@ =~= self.nodes@.subrange(0, i as int).map_values(
                    |n: (AccountId, Score)| n.0,
                ));
            }
        }
        proof {
            assert(self.nodes@.subrange(0, i as int) =~= self.nodes@);
        }
        r
    }

    /// The number of accounts in the list.
    pub fn count(&self) -> (r: usize)
        requires
            self.wf(),
        ensures
            r == self.order().len(),
    {
        self.nodes.len()
    }

    fn insert_node(&mut self, who: AccountId, score: Score)
        requires
            old(self).wf(),
            !old(self)@.contains_key(who),
        ensures
            final(self).wf(),
            final(self)@ == old(self)@.insert(who, score),
    {
        let mut p: usize = 0;
        while p < self.nodes.len() && self.nodes[p].1 >= score
            invariant
                p <= self.nodes@.len(),
                forall|j: int| 0 <= j < p ==> self.nodes@[j].1 >= score,
            decreases self.nodes@.len() - p,
        {
            p += 1;
        }
        let ghost s = self.nodes@;
        self.nodes.insert(p, (who, score));
        proof {
            let t = self.nodes@;
            assert(t == s.insert(p as int, (who, score)));
            assert forall|i: int, j: int| 0 <= i < j < t.len() implies t[i].1 >= t[j].1 by {
                if j < p {
                } else if j == p {
                } else if i < p {
                    assert(s[j - 1].1 <= s[p as int].1 || p == s.len());
                } else if i == p {
                    assert(s[p as int].1 < score);
                } else {
                }
            }
            assert forall|i: int, j: int| 0 <= i < j < t.len() implies t[i].0 != t[j].0 by {
                if i == p {
                    assert(s[j - 1].0 != who) by {
                        if s[j - 1].0 == who {
                            lemma_nodes_map_at(s, j - 1);
                        }
                    }
                } else if j == p {
                    assert(s[i].0 != who) by {
                        if s[i].0 == who {
                            lemma_nodes_map_at(s, i);
                        }
                    }
                }
            }
            assert forall|k: AccountId| #[trigger]
                nodes_map(t).contains_key(k) == old(self)@.insert(who, score).contains_key(k) by {
                if has_key(t, k) {
                    let i = choose|i: int| 0 <= i < t.len() && t[i].0 == k;
                    if i < p {
                        lemma_nodes_map_at(s, i);
                    } else if i > p {
                        lemma_nodes_map_at(s, i - 1);
                    }
                }
                if has_key(s, k) {
                    let i = choose|i: int| 0 <= i < s.len() && s[i].0 == k;
                    if i < p {
                        assert(t[i] == s[i]);
                    } else {
                        assert(t[i + 1] == s[i]);
                    }
                }
                if k == who {
                    assert(t[p as int].0 == who);
                }
            }
            assert forall|k: AccountId| #[trigger]
                nodes_map(t).contains_key(k) implies nodes_map(t)[k] == old(self)@.insert(
                who,
                score,
            )[k] by {
                let i = choose|i: int| 0 <= i < t.len() && t[i].0 == k;
                lemma_nodes_map_at(t, i);
                if i < p {
                    lemma_nodes_map_at(s, i);
                } else if i > p {
                    lemma_nodes_map_at(s, i - 1);
                }
            }
            assert(nodes_map(t) =~= old(self)@.insert(who, score));
        }
    }

    fn remove_at(&mut self, p: usize)
        requires
            old(self).wf(),
            p < old(self).nodes@.len(),
        ensures
            final(self).wf(),
            final(self)@ == old(self)@.remove(old(self).nodes@[p as int].0),
    {
        let ghost s = self.nodes@;
        let ghost who = s[p as int].0;
        self.nodes.remove(p);
        proof {
            let t = self.nodes@;
            assert(t == s.remove(p as int));
            assert forall|i: int, j: int| 0 <= i < j < t.len() implies t[i].1 >= t[j].1 by {
                let a = if i < p { i } else { i + 1 };
                let b = if j < p { j } else { j + 1 };
                assert(t[i] == s[a] && t[j] == s[b]);
            }
            assert forall|i: int, j: int| 0 <= i < j < t.len() implies t[i].0 != t[j].0 by {
                let a = if i < p { i } else { i + 1 };
                let b = if j < p { j } else { j + 1 };
                assert(t[i] == s[a] && t[j] == s[b]);
            }
            assert forall|k: AccountId| #[trigger]
                nodes_map(t).contains_key(k) == old(self)@.remove(who).contains_key(k) by {
                if has_key(t, k) {
                    let i = choose|i: int| 0 <= i < t.len() && t[i].0 == k;
                    let a = if i < p { i } else { i + 1 };
                    assert(t[i] == s[a]);
                    lemma_nodes_map_at(s, a);
                    assert(s[a].0 != who);
                }
                if has_key(s, k) && k != who {
                    let i = choose|i: int| 0 <= i < s.len() && s[i].0 == k;
                    if i < p {
                        assert(t[i] == s[i]);
                    } else {
                        assert(i != p);
                        assert(t[i - 1] == s[i]);
                    }
                }
            }
            assert forall|k: AccountId| #[trigger]
                nodes_map(t).contains_key(k) implies nodes_map(t)[k] == old(self)@.remove(
                who,
            )[k] by {
                let i = choose|i: int| 0 <= i < t.len() && t[i].0 == k;
                let a = if i < p { i } else { i + 1 };
                assert(t[i] == s[a]);
                lemma_nodes_map_at(t, i);
                lemma_nodes_map_at(s, a);
            }
            assert(nodes_map(t) =~= old(self)@.remove(who));
        }
    }

    /// Adds `who` with `score`; fails if it is already present.
    pub fn on_insert(&mut self, who: AccountId, score: Score) -> (r: Result<(), ListError>)
        requires
            old(self).wf(),
        ensures
            final(self).wf(),
            old(self)@.contains_key(who) ==> r == Err::<(), ListError>(ListError::Duplicate)
                && final(self)@ == old(self)@,
            !old(self)@.contains_key(who) ==> r is Ok && final(self)@ == old(self)@.insert(
                who,
                score,
            ),
    {
        if self.contains(who) {
            return Err(ListError::Duplicate);
        }
        self.insert_node(who, score);
        Ok(())
    }

    /// Removes `who`; fails if it is absent.
    pub fn on_remove(&mut self, who: AccountId) -> (r: Result<(), ListError>)
        requires
            old(self).wf(),
        ensures
            final(self).wf(),
            old(self)@.contains_key(who) ==> r is Ok && final(self)@ == old(self)@.remove(who),
            !old(self)@.contains_key(who) ==> r == Err::<(), ListError>(ListError::NodeNotFound)
                && final(self)@ == old(self)@,
    {
        match self.find(who) {
            Some(p) => {
                self.remove_at(p);
                Ok(())
            },
            None => Err(ListError::NodeNotFound),
        }
    }

    /// Sets the score of `who` and moves it to its place; fails if it is absent.
    pub fn on_update(&mut self, who: AccountId, score: Score) -> (r: Result<(), ListError>)
        requires
            old(self).wf(),
        ensures
            final(self).wf(),
            old(self)@.contains_key(who) ==> r is Ok && final(self)@ == old(self)@.insert(
                who,
                score,
            ),
            !old(self)@.contains_key(who) ==> r == Err::<(), ListError>(ListError::NodeNotFound)
                && final(self)@ == old(self)@,
    {
        match self.find(who) {
            Some(p) => {
                self.remove_at(p);
                self.insert_node(who, score);
                proof {
                    assert(final(self)@ =~= old(self)@.insert(who, score));
                }
                Ok(())
            },
            None => Err(ListError::NodeNotFound),
        }
    }

    /// Raises the score of `who` by `extra`, saturating; fails if it is absent.
    pub fn on_increase(&mut self, who: AccountId, extra: Score) -> (r: Result<(), ListError>)
        requires
            old(self).wf(),
        ensures
            final(self).wf(),
            old(self)@.contains_key(who) ==> r is Ok && final(self)@ == old(self)@.insert(
                who,
                sat_add(old(self)@[who], extra),
            ),
            !old(self)@.contains_key(who) ==> r == Err::<(), ListError>(ListError::NodeNotFound)
                && final(self)@ == old(self)@,
    {
        match self.get_score(who) {
            Ok(current) => self.on_update(who, current.saturating_add(extra)),
            Err(e) => Err(e),
        }
    }
}

/// Addition of scores, saturating at the largest score.
pub open spec fn sat_add(a: Score, b: Score) -> Score {
    if a + b > Score::MAX {
        Score::MAX
    } else {
        (a + b) as Score
    }
}

/// Subtraction of scores, saturating at zero.
pub open spec fn sat_sub(a: Score, b: Score) -> Score {
    if a < b {
        0
    } else {
        (a - b) as Score
    }
}

} // verus!
