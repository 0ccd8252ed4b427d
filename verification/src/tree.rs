//! The directory node: an ordered-by-name mapping from path-component byte
//! sequences to [`Node`] references.
//!
//! Names are opaque byte sequences ordered lexicographically, the order a
//! directory listing walks them in. A directory is a list of slots kept
//! strictly sorted by name; the model of a directory is the sequence of its
//! `(name, node)` pairs in that order.

use vstd::prelude::*;

use crate::inode::Node;

verus! {

/// Strict lexicographic order on byte sequences: the order of a directory's
/// slots.
pub open spec fn lex_lt(a: Seq<u8>, b: Seq<u8>) -> bool
    decreases a.len(),
{
    if b.len() == 0 {
        false
    } else if a.len() == 0 {
        true
    } else if a[0] < b[0] {
        true
    } else if a[0] > b[0] {
        false
    } else {
        lex_lt(a.skip(1), b.skip(1))
    }
}

/// The lexicographic order is transitive.
pub proof fn lemma_lex_trans(a: Seq<u8>, b: Seq<u8>, c: Seq<u8>)
    requires
        lex_lt(a, b),
        lex_lt(b, c),
    ensures
        lex_lt(a, c),
    decreases a.len(),
{
    if a.len() == 0 {
    } else {
        if a[0] == b[0] && b[0] == c[0] {
            lemma_lex_trans(a.skip(1), b.skip(1), c.skip(1));
        }
    }
}

/// Two distinct byte sequences are ordered one way or the other.
pub proof fn lemma_lex_connected(a: Seq<u8>, b: Seq<u8>)
    requires
        a != b,
    ensures
        lex_lt(a, b) || lex_lt(b, a),
    decreases a.len(),
{
    if a.len() == 0 {
        if b.len() == 0 {
            assert(a =~= b);
        }
    } else if b.len() == 0 {
    } else if a[0] == b[0] {
        if a.skip(1) == b.skip(1) {
            assert(a.skip(1).len() == b.skip(1).len());
            assert(a.len() == b.len());
            assert(a =~= b) by {
                assert forall|k: int| 0 <= k < a.len() implies a[k] == b[k] by {
                    if k >= 1 {
                        assert(a.skip(1)[k - 1] == a[k]);
                        assert(b.skip(1)[k - 1] == b[k]);
                    }
                }
            }
        } else {
            lemma_lex_connected(a.skip(1), b.skip(1));
        }
    }
}

/// Compare two byte strings for equality.
pub fn bytes_eq(a: &[u8], b: &[u8]) -> (r: bool)
    ensures
        r == (a@ == b@),
{
    if a.len() != b.len() {
        return false;
    }
    let mut i: usize = 0;
    while i < a.len()
        invariant
            i <= a@.len(),
            a@.len() == b@.len(),
            forall|j: int| 0 <= j < i ==> a@[j] == b@[j],
        decreases a@.len() - i,
    {
        if a[i] != b[i] {
            return false;
        }
        i = i + 1;
    }
    proof {
        assert(a@ =~= b@);
    }
    true
}

/// Compare two byte strings in the lexicographic order.
pub fn bytes_lt(a: &[u8], b: &[u8]) -> (r: bool)
    ensures
        r == lex_lt(a@, b@),
{
    let mut i: usize = 0;
    proof {
        assert(a@.skip(0) =~= a@);
        assert(b@.skip(0) =~= b@);
    }
    while i < a.len() && i < b.len()
        invariant
            i <= a@.len(),
            i <= b@.len(),
            lex_lt(a@, b@) == lex_lt(a@.skip(i as int), b@.skip(i as int)),
            lex_lt(b@, a@) == lex_lt(b@.skip(i as int), a@.skip(i as int)),
        decreases a@.len() - i,
    {
        let ghost sa = a@.skip(i as int);
        let ghost sb = b@.skip(i as int);
        proof {
            assert(sa[0] == a@[i as int]);
            assert(sb[0] == b@[i as int]);
        }
        if a[i] < b[i] {
            return true;
        }
        if a[i] > b[i] {
            return false;
        }
        i = i + 1;
        proof {
            assert(sa.skip(1) =~= a@.skip(i as int));
            assert(sb.skip(1) =~= b@.skip(i as int));
        }
    }
    proof {
        if i == b@.len() {
            assert(b@.skip(i as int).len() == 0);
        } else {
            assert(a@.skip(i as int).len() == 0);
            assert(b@.skip(i as int).len() > 0);
        }
    }
    i < b.len()
}

/// What a directory maps a name to, in its model.
pub open spec fn dir_lookup(m: Seq<(Seq<u8>, Node)>, name: Seq<u8>) -> Option<Node>
    decreases m.len(),
{
    if m.len() == 0 {
        None
    } else if m[0].0 == name {
        Some(m[0].1)
    } else {
        dir_lookup(m.skip(1), name)
    }
}

/// A directory's model with `name` bound to `node`: the slot is overwritten
/// where the name is present, and inserted at its ordered place where not.
pub open spec fn dir_set(m: Seq<(Seq<u8>, Node)>, name: Seq<u8>, node: Node) -> Seq<
    (Seq<u8>, Node),
>
    decreases m.len(),
{
    if m.len() == 0 {
        seq![(name, node)]
    } else if m[0].0 == name {
        seq![(name, node)] + m.skip(1)
    } else if lex_lt(name, m[0].0) {
        seq![(name, node)] + m
    } else {
        seq![m[0]] + dir_set(m.skip(1), name, node)
    }
}

/// The slots stand in strictly ascending name order.
pub open spec fn dir_sorted(m: Seq<(Seq<u8>, Node)>) -> bool {
    forall|i: int, j: int|
        0 <= i < j < m.len() ==> lex_lt(#[trigger] m[i].0, #[trigger] m[j].0)
}

/// `y` lies strictly below every name of the directory.
pub open spec fn dir_above(m: Seq<(Seq<u8>, Node)>, y: Seq<u8>) -> bool {
    forall|k: int| 0 <= k < m.len() ==> lex_lt(y, #[trigger] m[k].0)
}

/// Every node of the directory points inside the archive's entry table or
/// the directory list.
pub open spec fn dir_nodes_valid(m: Seq<(Seq<u8>, Node)>, file_count: u32, dir_count: int) -> bool {
    forall|k: int| 0 <= k < m.len() ==> (#[trigger] m[k].1).valid(file_count, dir_count)
}

/// Binding a name in a sorted directory keeps it sorted, and keeps every
/// name that lay below both the new name and the whole directory below the
/// result.
pub proof fn lemma_dir_set_sorted(m: Seq<(Seq<u8>, Node)>, name: Seq<u8>, node: Node)
    requires
        dir_sorted(m),
    ensures
        dir_sorted(dir_set(m, name, node)),
        forall|y: Seq<u8>|
            lex_lt(y, name) && dir_above(m, y) ==> #[trigger] dir_above(dir_set(m, name, node), y),
    decreases m.len(),
{
    let r = dir_set(m, name, node);
    if m.len() == 0 {
    } else if m[0].0 == name {
        assert forall|i: int, j: int| 0 <= i < j < r.len() implies lex_lt(r[i].0, r[j].0) by {
            assert(r[j] == m.skip(1)[j - 1]);
            assert(m.skip(1)[j - 1] == m[j]);
            if i > 0 {
                assert(r[i] == m[i]);
            }
        }
    } else if lex_lt(name, m[0].0) {
        assert forall|i: int, j: int| 0 <= i < j < r.len() implies lex_lt(r[i].0, r[j].0) by {
            assert(r[j] == m[j - 1]);
            if i > 0 {
                assert(r[i] == m[i - 1]);
            } else {
                if j > 1 {
                    lemma_lex_trans(name, m[0].0, m[j - 1].0);
                }
            }
        }
    } else {
        // the head stays; the binding happens in the tail
        lemma_lex_connected(name, m[0].0);
        assert(lex_lt(m[0].0, name));
        assert(dir_sorted(m.skip(1))) by {
            assert forall|i: int, j: int|
                0 <= i < j < m.skip(1).len() implies lex_lt(m.skip(1)[i].0, m.skip(1)[j].0) by {
                assert(m.skip(1)[i] == m[i + 1]);
                assert(m.skip(1)[j] == m[j + 1]);
            }
        }
        lemma_dir_set_sorted(m.skip(1), name, node);
        let rt = dir_set(m.skip(1), name, node);
        assert(dir_above(m.skip(1), m[0].0)) by {
            assert forall|k: int| 0 <= k < m.skip(1).len() implies lex_lt(m[0].0, m.skip(1)[k].0) by {
                assert(m.skip(1)[k] == m[k + 1]);
            }
        }
        assert(dir_above(rt, m[0].0));
        assert forall|i: int, j: int| 0 <= i < j < r.len() implies lex_lt(r[i].0, r[j].0) by {
            assert(r[0] == m[0]);
            if i > 0 {
                assert(r[i] == rt[i - 1]);
            }
            assert(r[j] == rt[j - 1]);
        }
        assert forall|y: Seq<u8>|
            lex_lt(y, name) && dir_above(m, y) implies #[trigger] dir_above(r, y) by {
            assert(dir_above(m.skip(1), y)) by {
                assert forall|k: int| 0 <= k < m.skip(1).len() implies lex_lt(y, m.skip(1)[k].0) by {
                    assert(m.skip(1)[k] == m[k + 1]);
                }
            }
            assert(dir_above(rt, y));
            assert forall|k: int| 0 <= k < r.len() implies lex_lt(y, r[k].0) by {
                if k == 0 {
                    assert(r[0] == m[0]);
                } else {
                    assert(r[k] == rt[k - 1]);
                }
            }
        }
    }
}

/// Binding a valid node into a directory of valid nodes leaves every node
/// valid.
pub proof fn lemma_dir_set_valid(
    m: Seq<(Seq<u8>, Node)>,
    name: Seq<u8>,
    node: Node,
    file_count: u32,
    dir_count: int,
)
    requires
        dir_nodes_valid(m, file_count, dir_count),
        node.valid(file_count, dir_count),
    ensures
        dir_nodes_valid(dir_set(m, name, node), file_count, dir_count),
    decreases m.len(),
{
    let r = dir_set(m, name, node);
    if m.len() == 0 {
    } else if m[0].0 == name {
        assert forall|k: int| 0 <= k < r.len() implies r[k].1.valid(file_count, dir_count) by {
            if k > 0 {
                assert(r[k] == m.skip(1)[k - 1]);
                assert(m.skip(1)[k - 1] == m[k]);
            }
        }
    } else if lex_lt(name, m[0].0) {
        assert forall|k: int| 0 <= k < r.len() implies r[k].1.valid(file_count, dir_count) by {
            if k > 0 {
                assert(r[k] == m[k - 1]);
            }
        }
    } else {
        assert(dir_nodes_valid(m.skip(1), file_count, dir_count)) by {
            assert forall|k: int|
                0 <= k < m.skip(1).len() implies m.skip(1)[k].1.valid(file_count, dir_count) by {
                assert(m.skip(1)[k] == m[k + 1]);
            }
        }
        lemma_dir_set_valid(m.skip(1), name, node, file_count, dir_count);
        let rt = dir_set(m.skip(1), name, node);
        assert forall|k: int| 0 <= k < r.len() implies r[k].1.valid(file_count, dir_count) by {
            if k == 0 {
                assert(r[0] == m[0]);
            } else {
                assert(r[k] == rt[k - 1]);
            }
        }
    }
}

/// Binding a name grows a directory by at most one slot.
pub proof fn lemma_dir_set_len(m: Seq<(Seq<u8>, Node)>, name: Seq<u8>, node: Node)
    ensures
        m.len() <= dir_set(m, name, node).len() <= m.len() + 1,
    decreases m.len(),
{
    if m.len() == 0 {
    } else if m[0].0 == name {
    } else if lex_lt(name, m[0].0) {
    } else {
        lemma_dir_set_len(m.skip(1), name, node);
    }
}

/// What a lookup finds in a directory of valid nodes is itself valid.
pub proof fn lemma_dir_lookup_valid(
    m: Seq<(Seq<u8>, Node)>,
    name: Seq<u8>,
    file_count: u32,
    dir_count: int,
)
    requires
        dir_nodes_valid(m, file_count, dir_count),
        dir_lookup(m, name) is Some,
    ensures
        dir_lookup(m, name).unwrap().valid(file_count, dir_count),
    decreases m.len(),
{
    if m.len() == 0 {
    } else if m[0].0 == name {
        assert(m[0].1.valid(file_count, dir_count));
    } else {
        assert(dir_nodes_valid(m.skip(1), file_count, dir_count)) by {
            assert forall|k: int|
                0 <= k < m.skip(1).len() implies (#[trigger] m.skip(1)[k].1).valid(
                file_count,
                dir_count,
            ) by {
                assert(m.skip(1)[k] == m[k + 1]);
            }
        }
        lemma_dir_lookup_valid(m.skip(1), name, file_count, dir_count);
    }
}

/// Growing the directory list never invalidates a node: validity is
/// monotone in the directory count.
pub proof fn lemma_dir_nodes_valid_grow(
    m: Seq<(Seq<u8>, Node)>,
    file_count: u32,
    dir_count: int,
    larger: int,
)
    requires
        dir_nodes_valid(m, file_count, dir_count),
        dir_count <= larger,
    ensures
        dir_nodes_valid(m, file_count, larger),
{
    assert forall|k: int| 0 <= k < m.len() implies (#[trigger] m[k].1).valid(file_count, larger) by {
        assert(m[k].1.valid(file_count, dir_count));
    }
}

/// The path delimiter: `/`.
pub const SLASH: u8 = 47;

/// The components of the path suffix `s` with the partial component `cur`
/// already read: components are delimited by slashes, and empty components
/// — from repeated, leading or trailing slashes — are discarded.
pub open spec fn pc_rec(s: Seq<u8>, cur: Seq<u8>) -> Seq<Seq<u8>>
    decreases s.len(),
{
    if s.len() == 0 {
        if cur.len() == 0 {
            Seq::empty()
        } else {
            seq![cur]
        }
    } else if s[0] == SLASH {
        if cur.len() == 0 {
            pc_rec(s.skip(1), Seq::empty())
        } else {
            seq![cur] + pc_rec(s.skip(1), Seq::empty())
        }
    } else {
        pc_rec(s.skip(1), cur.push(s[0]))
    }
}

/// The ordered, nonempty components of a slash-delimited path.
pub open spec fn path_components(s: Seq<u8>) -> Seq<Seq<u8>> {
    pc_rec(s, Seq::empty())
}

/// The views of a sequence of byte vectors.
pub open spec fn seqs_view(s: Seq<Vec<u8>>) -> Seq<Seq<u8>> {
    s.map_values(|v: Vec<u8>| v@)
}

/// Split a path on `/`, discarding empty components.
pub fn split_path(name: &[u8]) -> (r: Vec<Vec<u8>>)
    ensures
        seqs_view(r@) == path_components(name@),
{
    let mut comps: Vec<Vec<u8>> = Vec::new();
    let mut cur: Vec<u8> = Vec::new();
    let mut i: usize = 0;
    proof {
        assert(name@.skip(0) =~= name@);
        assert(seqs_view(comps@) =~= Seq::<Seq<u8>>::empty());
    }
    while i < name.len()
        invariant
            i <= name@.len(),
            path_components(name@) == seqs_view(comps@) + pc_rec(name@.skip(i as int), cur@),
        decreases name@.len() - i,
    {
        let ghost s = name@.skip(i as int);
        let ghost oldcomps = comps@;
        let ghost oldcur = cur@;
        proof {
            assert(s[0] == name@[i as int]);
        }
        if name[i] == SLASH {
            if cur.len() > 0 {
                comps.push(cur);
                cur = Vec::new();
                proof {
                    assert(seqs_view(comps@) =~= seqs_view(oldcomps).push(oldcur));
                    assert(
                        (seqs_view(oldcomps) + (seq![oldcur] + pc_rec(s.skip(1), Seq::empty())))
                            =~= seqs_view(comps@) + pc_rec(s.skip(1), Seq::empty())
                    );
                    assert(cur@ =~= Seq::<u8>::empty());
                }
            } else {
                proof {
                    assert(cur@ =~= Seq::<u8>::empty());
                }
            }
        } else {
            cur.push(name[i]);
        }
        i = i + 1;
        proof {
            assert(s.skip(1) =~= name@.skip(i as int));
        }
    }
    proof {
        assert(name@.skip(i as int).len() == 0);
    }
    if cur.len() > 0 {
        let ghost oldcomps = comps@;
        let ghost oldcur = cur@;
        comps.push(cur);
        proof {
            assert(seqs_view(comps@) =~= seqs_view(oldcomps).push(oldcur));
            assert(seqs_view(oldcomps) + seq![oldcur] =~= seqs_view(comps@));
        }
    } else {
        proof {
            assert(seqs_view(comps@) + Seq::<Seq<u8>>::empty() =~= seqs_view(comps@));
        }
    }
    comps
}

/// One slot of a directory: a path-component name bound to a node.
pub struct DirEnt {
    pub name: Vec<u8>,
    pub node: Node,
}

/// A directory: its slots, kept strictly sorted by name.
pub struct Dir {
    slots: Vec<DirEnt>,
}

impl View for Dir {
    type V = Seq<(Seq<u8>, Node)>;

    closed spec fn view(&self) -> Seq<(Seq<u8>, Node)> {
        self.slots@.map_values(|s: DirEnt| (s.name@, s.node))
    }
}

impl Dir {
    /// An empty directory.
    pub fn new() -> (d: Dir)
        ensures
            d@ == Seq::<(Seq<u8>, Node)>::empty(),
    {
        let d = Dir { slots: Vec::new() };
        proof {
            assert(d@ =~= Seq::<(Seq<u8>, Node)>::empty());
        }
        d
    }

    /// The number of children.
    pub fn len(&self) -> (n: usize)
        ensures
            n == self@.len(),
    {
        self.slots.len()
    }

    /// The slot at position `i` in name order.
    pub fn get_at(&self, i: usize) -> (r: (&Vec<u8>, Node))
        requires
            i < self@.len(),
        ensures
            r.0@ == self@[i as int].0,
            r.1 == self@[i as int].1,
    {
        (&self.slots[i].name, self.slots[i].node)
    }

    /// Look a name up.
    pub fn find(&self, name: &[u8]) -> (r: Option<Node>)
        ensures
            r == dir_lookup(self@, name@),
    {
        let ghost m = self@;
        proof {
            assert(m.skip(0) =~= m);
        }
        let mut i: usize = 0;
        while i < self.slots.len()
            invariant
                i <= self@.len(),
                m == self@,
                self@.len() == self.slots@.len(),
                dir_lookup(m, name@) == dir_lookup(m.skip(i as int), name@),
            decreases self@.len() - i,
        {
            let ghost s = m.skip(i as int);
            proof {
                assert(s[0] == m[i as int]);
            }
            if bytes_eq(self.slots[i].name.as_slice(), name) {
                return Some(self.slots[i].node);
            }
            i = i + 1;
            proof {
                assert(s.skip(1) =~= m.skip(i as int));
            }
        }
        proof {
            assert(m.skip(i as int).len() == 0);
        }
        None
    }

    /// Bind `name` to `node`: overwrite the slot where the name is present,
    /// insert it at its ordered place where not.
    pub fn set(&mut self, name: Vec<u8>, node: Node)
        ensures
            final(self)@ == dir_set(old(self)@, name@, node),
    {
        let ghost m = self@;
        proof {
            assert(m.skip(0) =~= m);
            assert(m.take(0) =~= Seq::<(Seq<u8>, Node)>::empty());
        }
        let mut i: usize = 0;
        while i < self.slots.len() && !self.stops_before(i, name.as_slice())
            invariant
                i <= self@.len(),
                m == self@,
                *self == *old(self),
                self@.len() == self.slots@.len(),
                dir_set(m, name@, node) == m.take(i as int) + dir_set(
                    m.skip(i as int),
                    name@,
                    node,
                ),
            decreases self@.len() - i,
        {
            let ghost s = m.skip(i as int);
            proof {
                assert(s[0] == m[i as int]);
            }
            i = i + 1;
            proof {
                assert(s.skip(1) =~= m.skip(i as int));
                assert(
                    m.take(i - 1) + (seq![m[i - 1]] + dir_set(m.skip(i as int), name@, node))
                        =~= m.take(i as int) + dir_set(m.skip(i as int), name@, node)
                );
            }
        }
        let ghost s = m.skip(i as int);
        if i == self.slots.len() {
            proof {
                assert(s.len() == 0);
            }
            self.slots.push(DirEnt { name, node });
            proof {
                assert(self@ =~= m.take(m.len() as int) + seq![(name@, node)]);
            }
        } else {
            proof {
                assert(s[0] == m[i as int]);
            }
            if bytes_eq(self.slots[i].name.as_slice(), name.as_slice()) {
                let slot = &mut self.slots[i];
                slot.name = name;
                slot.node = node;
                proof {
                    assert(s.skip(1) =~= m.skip(i as int + 1));
                    assert(self@ =~= m.take(i as int) + (seq![(name@, node)] + s.skip(1)));
                }
            } else {
                self.slots.insert(i, DirEnt { name, node });
                proof {
                    assert(self@ =~= m.take(i as int) + (seq![(name@, node)] + s));
                }
            }
        }
    }

    /// Whether the scan for `name`'s place stops at slot `i`: the slot's
    /// name is the one sought, or lies above it.
    fn stops_before(&self, i: usize, name: &[u8]) -> (r: bool)
        requires
            i < self@.len(),
        ensures
            r == (self@[i as int].0 == name@ || lex_lt(name@, self@[i as int].0)),
    {
        if bytes_eq(self.slots[i].name.as_slice(), name) {
            true
        } else {
            bytes_lt(name, self.slots[i].name.as_slice())
        }
    }
}

} // verus!
