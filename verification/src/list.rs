//! The registry of live threads: an insert-at-head list with removal through
//! owner tokens and restartable iteration.
//!
//! In a running process this is a lock-free linked list whose nodes are
//! marked before they are unlinked; here it is a sequence ordered newest
//! first. Every node carries an identifier drawn from a strictly increasing
//! counter, so the sequence is strictly decreasing in identifiers and an
//! iterator can name its position by the identifier of the node it has
//! reached: a position whose node has since been removed is exactly the
//! marked-node case, and reports [`IterError::Retry`].

use vstd::prelude::*;

verus! {

/// A node of the registry: an identifier and the element it carries.
pub struct Node<T> {
    id: usize,
    elem: T,
}

impl<T> Node<T> {
    /// The node's identifier.
    pub closed spec fn spec_id(self) -> int {
        self.id as int
    }

    /// The element the node carries.
    pub closed spec fn spec_elem(self) -> T {
        self.elem
    }

    /// Returns the node's identifier.
    pub fn id(&self) -> (r: usize)
        ensures
            r as int == self.spec_id(),
    {
        self.id
    }

    /// Returns the node's element.
    pub fn elem(&self) -> (r: &T)
        ensures
            *r == self.spec_elem(),
    {
        &self.elem
    }
}

/// A token standing for ownership of one entry of a [`List`].
///
/// The token is the only way to remove the entry again; it is not copyable,
/// so an entry can be removed at most once.
pub struct ListEntry {
    id: usize,
}

impl ListEntry {
    /// The identifier of the owned entry.
    pub closed spec fn spec_id(self) -> int {
        self.id as int
    }

    /// Returns the identifier of the owned entry.
    pub fn id(&self) -> (r: usize)
        ensures
            r as int == self.spec_id(),
    {
        self.id
    }

    /// Consumes the token, returning the identifier of the owned entry.
    pub fn into_inner(self) -> (r: usize)
        ensures
            r as int == self.spec_id(),
    {
        self.id
    }
}

/// The registry list, newest entry first.
pub struct List<T> {
    nodes: Vec<Node<T>>,
    next_id: usize,
}

impl<T> List<T> {
    /// The nodes, newest first.
    pub closed spec fn view(self) -> Seq<Node<T>> {
        self.nodes@
    }

    /// The identifier the next insertion will use.
    pub closed spec fn spec_next_id(self) -> int {
        self.next_id as int
    }

    /// The identifiers of the nodes, newest first.
    pub open spec fn ids(self) -> Seq<int> {
        self.view().map_values(|n: Node<T>| n.spec_id())
    }

    /// Whether a node with the given identifier is in the list.
    pub open spec fn contains_id(self, id: int) -> bool {
        self.ids().contains(id)
    }

    /// The index of the node with the given identifier.
    pub open spec fn idx_of(self, id: int) -> int {
        self.ids().index_of(id)
    }

    /// Identifiers are below the insertion counter and strictly decrease
    /// from head to tail, so they are distinct.
    pub open spec fn wf(self) -> bool {
        &&& forall|i: int, j: int|
            0 <= i < j < self.ids().len() ==> #[trigger] self.ids()[i] > #[trigger] self.ids()[j]
        &&& forall|i: int| 0 <= i < self.ids().len() ==> #[trigger] self.ids()[i] < self.spec_next_id()
    }

    /// In a well-formed list the index of a present identifier is the only
    /// index carrying it.
    pub proof fn lemma_idx_of(self, i: int)
        requires
            self.wf(),
            0 <= i < self.ids().len(),
        ensures
            self.idx_of(self.ids()[i]) == i,
    {
        let id = self.ids()[i];
        assert(self.contains_id(id));
        let j = self.ids().index_of(id);
        if i < j {
            assert(self.ids()[i] > self.ids()[j]);
        } else if j < i {
            assert(self.ids()[j] > self.ids()[i]);
        }
    }

    /// Registry membership is unambiguous: no identifier occurs at two
    /// positions, so an entry is inserted exactly once and a traversal
    /// never meets it twice.
    pub proof fn lemma_ids_unique(self, i: int, j: int)
        requires
            self.wf(),
            0 <= i < self.ids().len(),
            0 <= j < self.ids().len(),
            self.ids()[i] == self.ids()[j],
        ensures
            i == j,
    {
        if i < j {
            assert(self.ids()[i] > self.ids()[j]);
        } else if j < i {
            assert(self.ids()[j] > self.ids()[i]);
        }
    }

    /// Creates an empty registry.
    pub fn new() -> (r: List<T>)
        ensures
            r.wf(),
            r.view().len() == 0,
            r.spec_next_id() == 0,
    {
        List { nodes: Vec::new(), next_id: 0 }
    }

    /// The number of entries.
    pub fn len(&self) -> (r: usize)
        ensures
            r == self.view().len(),
    {
        self.nodes.len()
    }

    /// The identifier the next insertion will use.
    pub fn next_id(&self) -> (r: usize)
        ensures
            r as int == self.spec_next_id(),
    {
        self.next_id
    }

    /// The index of the node with identifier `id`, scanning from the head.
    fn find_index(&self, id: usize) -> (r: Option<usize>)
        ensures
            match r {
                Some(i) => i < self.view().len() && self.ids()[i as int] == id as int,
                None => !self.contains_id(id as int),
            },
    {
        let mut i: usize = 0;
        while i < self.nodes.len()
            invariant
                i <= self.view().len(),
                forall|j: int| 0 <= j < i ==> #[trigger] self.ids()[j] != id as int,
            decreases self.view().len() - i,
        {
            if self.nodes[i].id == id {
                assert(self.ids()[i as int] == id as int);
                return Some(i);
            }
            i = i + 1;
        }
        assert(forall|j: int| 0 <= j < self.ids().len() ==> #[trigger] self.ids()[j] != id as int);
        None
    }

    /// Inserts `elem` at the head under a fresh identifier and returns the
    /// ownership token for the new entry.
    pub fn insert(&mut self, elem: T) -> (entry: ListEntry)
        requires
            old(self).wf(),
            old(self).spec_next_id() < usize::MAX,
        ensures
            final (self).wf(),
            final (self).view().len() == old(self).view().len() + 1,
            final (self).view()[0].spec_id() == old(self).spec_next_id(),
            final (self).view()[0].spec_elem() == elem,
            final (self).view().skip(1) == old(self).view(),
            final (self).spec_next_id() == old(self).spec_next_id() + 1,
            entry.spec_id() == old(self).spec_next_id(),
            final (self).contains_id(entry.spec_id()),
    {
        let id = self.next_id;
        self.nodes.insert(0, Node { id, elem });
        self.next_id = self.next_id + 1;
        proof {
            assert(self.view().skip(1) =~= old(self).view());
            assert forall|i: int, j: int| 0 <= i < j < self.ids().len() implies #[trigger]
            self.ids()[i] > #[trigger] self.ids()[j] by {
                if 0 < i {
                    assert(old(self).ids()[i - 1] > old(self).ids()[j - 1]);
                }
            }
            assert(self.ids()[0] == id as int);
        }
        ListEntry { id }
    }

    /// Removes the entry owned by `entry`, returning its identifier.
    ///
    /// The token proves the entry is present, and is consumed, so each entry
    /// leaves the registry at most once.
    pub fn remove(&mut self, entry: ListEntry) -> (r: usize)
        requires
            old(self).wf(),
            old(self).contains_id(entry.spec_id()),
        ensures
            final (self).wf(),
            r as int == entry.spec_id(),
            final (self).view() == old(self).view().remove(old(self).idx_of(entry.spec_id())),
            final (self).spec_next_id() == old(self).spec_next_id(),
            !final (self).contains_id(entry.spec_id()),
            forall|id: int|
                id != entry.spec_id() ==> #[trigger] final (self).contains_id(id) == old(
                    self,
                ).contains_id(id),
    {
        let ghost chosen = old(self).idx_of(entry.spec_id());
        proof {
            assert(0 <= chosen < old(self).ids().len() && old(self).ids()[chosen]
                == entry.spec_id());
        }
        let i = match self.find_index(entry.id()) {
            Some(i) => i,
            None => {
                proof {
                    assert(false);
                }
                0
            },
        };
        proof {
            self.lemma_idx_of(i as int);
            assert(i as int == chosen);
        }
        self.nodes.remove(i);
        proof {
            let oldv = old(self).ids();
            let newv = self.ids();
            assert(newv =~= oldv.remove(chosen));
            assert forall|k: int| 0 <= k < newv.len() implies #[trigger] newv[k] != entry.spec_id()
                && newv[k] < self.spec_next_id() by {
                if k < chosen {
                    assert(newv[k] == oldv[k]);
                } else {
                    assert(newv[k] == oldv[k + 1]);
                }
            }
            assert forall|a: int, b: int| 0 <= a < b < newv.len() implies #[trigger] newv[a]
                > #[trigger] newv[b] by {
                let a0 = if a < chosen {
                    a
                } else {
                    a + 1
                };
                let b0 = if b < chosen {
                    b
                } else {
                    b + 1
                };
                assert(oldv[a0] > oldv[b0]);
            }
            assert(self.view() =~= old(self).view().remove(chosen));
            assert forall|id: int| id != entry.spec_id() implies #[trigger] self.contains_id(id)
                == old(self).contains_id(id) by {
                if old(self).contains_id(id) {
                    let k = old(self).ids().index_of(id);
                    if k < chosen {
                        assert(newv[k] == id);
                    } else if k > chosen {
                        assert(newv[k - 1] == id);
                    }
                }
                if self.contains_id(id) {
                    let k = newv.index_of(id);
                    if k < chosen {
                        assert(oldv[k] == id);
                    } else {
                        assert(oldv[k + 1] == id);
                    }
                }
            }
        }
        entry.into_inner()
    }

    /// Replaces the element of the entry with identifier `id`.
    pub fn set_elem(&mut self, id: usize, elem: T)
        requires
            old(self).wf(),
            old(self).contains_id(id as int),
        ensures
            final (self).wf(),
            final (self).view().len() == old(self).view().len(),
            final (self).ids() == old(self).ids(),
            final (self).spec_next_id() == old(self).spec_next_id(),
            forall|j: int|
                0 <= j < old(self).view().len() && old(self).ids()[j] != id as int ==> #[trigger]
                final (self).view()[j] == old(self).view()[j],
            forall|j: int|
                0 <= j < old(self).view().len() && old(self).ids()[j] == id as int ==> #[trigger]
                final (self).view()[j].spec_elem() == elem && final (self).view()[j].spec_id()
                    == id as int,
    {
        let i = match self.find_index(id) {
            Some(i) => i,
            None => {
                proof {
                    assert(false);
                }
                0
            },
        };
        self.nodes.set(i, Node { id, elem });
        proof {
            assert(self.ids() =~= old(self).ids());
        }
    }

    /// Reads the element of the entry with identifier `id`.
    pub fn get(&self, id: usize) -> (r: Option<&T>)
        requires
            self.wf(),
        ensures
            match r {
                Some(e) => self.contains_id(id as int) && *e == self.view()[self.idx_of(
                    id as int,
                )].spec_elem(),
                None => !self.contains_id(id as int),
            },
    {
        match self.find_index(id) {
            Some(i) => {
                proof {
                    self.lemma_idx_of(i as int);
                }
                Some(self.nodes[i].elem())
            },
            None => None,
        }
    }
}

/// The error reported when an iterator's position was removed from under it
/// and the traversal must restart from the head.
#[derive(Clone, Copy, PartialEq, Eq, Structural, Debug)]
pub enum IterError {
    /// The current node was marked for removal; restart from the head.
    Retry,
}

/// An iterator position: before the head, or just past a given node.
#[derive(Clone, Copy, PartialEq, Eq, Structural, Debug)]
pub enum IterPos {
    /// Before the first node: the next load reads the current head.
    Head,
    /// Just past the node with this identifier.
    After(usize),
}

/// A restartable cursor into a [`List`].
///
/// The cursor survives insertions and removals because it names only an
/// identifier; every operation takes the list it walks as an argument and
/// revalidates the position against it.
pub struct Iter {
    pos: IterPos,
}

impl<T> List<T> {
    /// What a cursor at `pos` reads: the node after `pos`, `None` past the
    /// end, or `Retry` when `pos` names a node no longer present.
    pub open spec fn load_current_spec(self, pos: IterPos) -> Result<
        Option<(int, T)>,
        IterError,
    > {
        match pos {
            IterPos::Head => if self.view().len() == 0 {
                Ok(None)
            } else {
                Ok(Some((self.ids()[0], self.view()[0].spec_elem())))
            },
            IterPos::After(id) => if !self.contains_id(id as int) {
                Err(IterError::Retry)
            } else {
                let i = self.idx_of(id as int);
                if i + 1 < self.view().len() {
                    Ok(Some((self.ids()[i + 1], self.view()[i + 1].spec_elem())))
                } else {
                    Ok(None)
                }
            },
        }
    }

    /// Where a cursor at `pos` moves: past the node it currently reads; from
    /// a vanished position it restarts at the head.
    pub open spec fn advance_spec(self, pos: IterPos) -> IterPos {
        match pos {
            IterPos::Head => if self.view().len() == 0 {
                IterPos::Head
            } else {
                IterPos::After(self.view()[0].spec_id() as usize)
            },
            IterPos::After(id) => if self.contains_id(id as int) {
                let i = self.idx_of(id as int);
                if i + 1 < self.view().len() {
                    IterPos::After(self.view()[i + 1].spec_id() as usize)
                } else {
                    pos
                }
            } else {
                if self.view().len() == 0 {
                    IterPos::Head
                } else {
                    IterPos::After(self.view()[0].spec_id() as usize)
                }
            },
        }
    }
}

impl Iter {
    /// The cursor's position.
    pub closed spec fn spec_pos(self) -> IterPos {
        self.pos
    }

    /// Creates a cursor before the head.
    pub fn new() -> (r: Iter)
        ensures
            r.spec_pos() == IterPos::Head,
    {
        Iter { pos: IterPos::Head }
    }

    /// Loads the node at the cursor, or reports that the traversal must
    /// restart.
    pub fn load_current<T: Copy>(&self, list: &List<T>) -> (r: Result<
        Option<(usize, T)>,
        IterError,
    >)
        requires
            list.wf(),
        ensures
            match (r, list.load_current_spec(self.spec_pos())) {
                (Ok(None), Ok(b)) => b is None,
                (Ok(Some((id, e))), Ok(b)) => b == Some((id as int, e)),
                (Err(a), Err(b)) => a == b,
                _ => false,
            },
    {
        match self.pos {
            IterPos::Head => {
                if list.nodes.len() == 0 {
                    Ok(None)
                } else {
                    Ok(Some((list.nodes[0].id, list.nodes[0].elem)))
                }
            },
            IterPos::After(id) => {
                match list.find_index(id) {
                    None => Err(IterError::Retry),
                    Some(i) => {
                        proof {
                            list.lemma_idx_of(i as int);
                        }
                        let n = list.nodes.len();
                        assert(i < n);
                        if i < n - 1 {
                            Ok(Some((list.nodes[i + 1].id, list.nodes[i + 1].elem)))
                        } else {
                            Ok(None)
                        }
                    },
                }
            },
        }
    }

    /// Loads the current head of the list, ignoring the cursor.
    pub fn load_head<T: Copy>(&self, list: &List<T>) -> (r: Option<(usize, T)>)
        requires
            list.wf(),
        ensures
            match r {
                None => list.view().len() == 0,
                Some((id, e)) => list.view().len() > 0 && id as int == list.ids()[0] && e
                    == list.view()[0].spec_elem(),
            },
    {
        if list.nodes.len() == 0 {
            None
        } else {
            Some((list.nodes[0].id, list.nodes[0].elem))
        }
    }

    /// Moves the cursor past the node it currently reads.
    pub fn advance<T: Copy>(&mut self, list: &List<T>)
        requires
            list.wf(),
        ensures
            final (self).spec_pos() == list.advance_spec(old(self).spec_pos()),
    {
        match self.pos {
            IterPos::Head => {
                if list.nodes.len() > 0 {
                    self.pos = IterPos::After(list.nodes[0].id);
                }
            },
            IterPos::After(id) => {
                match list.find_index(id) {
                    Some(i) => {
                        proof {
                            list.lemma_idx_of(i as int);
                        }
                        let n = list.nodes.len();
                        assert(i < n);
                        if i < n - 1 {
                            self.pos = IterPos::After(list.nodes[i + 1].id);
                        }
                    },
                    None => {
                        if list.nodes.len() > 0 {
                            self.pos = IterPos::After(list.nodes[0].id);
                        } else {
                            self.pos = IterPos::Head;
                        }
                    },
                }
            },
        }
    }

    /// Resets the cursor to before the head.
    pub fn restart(&mut self)
        ensures
            final (self).spec_pos() == IterPos::Head,
    {
        self.pos = IterPos::Head;
    }

}

/// The position a cursor reaches after `k` moves from the head of an
/// unchanging list.
pub open spec fn iterate<T>(l: List<T>, k: nat) -> IterPos
    decreases k,
{
    if k == 0 {
        IterPos::Head
    } else {
        l.advance_spec(iterate(l, (k - 1) as nat))
    }
}

/// After `k` moves the cursor sits just past the `k`-th node.
proof fn lemma_iterate_pos<T>(l: List<T>, k: int)
    requires
        l.wf(),
        1 <= k <= l.view().len(),
    ensures
        iterate(l, k as nat) == IterPos::After(l.view()[k - 1].spec_id() as usize),
    decreases k,
{
    assert(forall|i: int|
        0 <= i < l.ids().len() ==> 0 <= #[trigger] l.ids()[i] < usize::MAX as int + 1) by {
        assert(forall|i: int|
            0 <= i < l.view().len() ==> #[trigger] l.view()[i].spec_id() == l.ids()[i]);
    }
    if k == 1 {
        assert(iterate(l, 1nat) == l.advance_spec(IterPos::Head));
    } else {
        lemma_iterate_pos(l, k - 1);
        let prev_id = l.view()[k - 2].spec_id();
        l.lemma_idx_of(k - 2);
        assert(l.contains_id(prev_id));
        assert(l.advance_spec(IterPos::After(prev_id as usize)) == IterPos::After(
            l.view()[k - 1].spec_id() as usize,
        ));
    }
}

/// No registered entry is lost by a traversal: a cursor that starts before
/// the head of a list that does not change underneath it reads the `i`-th
/// node after exactly `i` moves, so a full sweep observes every entry.
pub proof fn lemma_traversal_visits_all<T>(l: List<T>, i: int)
    requires
        l.wf(),
        0 <= i < l.view().len(),
    ensures
        l.load_current_spec(iterate(l, i as nat)) == Ok::<Option<(int, T)>, IterError>(
            Some((l.ids()[i], l.view()[i].spec_elem())),
        ),
{
    if i == 0 {
        assert(iterate(l, 0nat) == IterPos::Head);
    } else {
        lemma_iterate_pos(l, i);
        l.lemma_idx_of(i - 1);
    }
}

/// A full sweep ends just past the last node, where the next load reports
/// the end of the registry.
pub proof fn lemma_traversal_terminates<T>(l: List<T>)
    requires
        l.wf(),
        l.view().len() > 0,
    ensures
        l.load_current_spec(iterate(l, l.view().len())) == Ok::<Option<(int, T)>, IterError>(
            None,
        ),
{
    let n = l.view().len() as int;
    lemma_iterate_pos(l, n);
    l.lemma_idx_of(n - 1);
}

} // verus!
