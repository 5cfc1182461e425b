//! A tree of nodes kept in a slab, with the children of each node.
//!
//! Each live node has a slot in the slab, which holds the value standing for
//! the node, and an entry in the structure map, which lists its children in
//! the order they were added. Removing a node removes it and all of its
//! descendants, but leaves its id in the list of its parent.

pub mod node;

use std::collections::HashMap;

use vstd::prelude::*;

use self::node::NodeId;

verus! {

broadcast use vstd::std_specs::hash::group_hash_axioms;

/// The slab type of the `slab` crate.
#[verifier::external_type_specification]
#[verifier::external_body]
#[verifier::reject_recursive_types(T)]
pub struct ExSlab<T>(slab::Slab<T>);

/// The occupied slots of a slab: key to stored value.
pub uninterp spec fn slab_entries(s: slab::Slab<u64>) -> Map<usize, u64>;

/// The key the slab hands out on its next insertion (its field `next`): the
/// slot most recently freed, or else the first slot past the end.
pub uninterp spec fn slab_next(s: slab::Slab<u64>) -> usize;

/// The number of slots of the slab, occupied or vacant (the length of its
/// field `entries`).
pub uninterp spec fn slab_slots(s: slab::Slab<u64>) -> usize;

/// Calls `slab::Slab::with_capacity`, which makes a slab with no slots, whose
/// next key is 0.
#[verifier::external_body]
fn slab_with_capacity(capacity: usize) -> (created: slab::Slab<u64>)
    ensures
        slab_entries(created).dom() == Set::<usize>::empty(),
        slab_next(created) == 0,
        slab_slots(created) == 0,
{
    slab::Slab::with_capacity(capacity)
}

/// Calls `slab::Slab::insert`, which stores the value under the key `next`
/// and returns that key: the key was not occupied, and now holds the value.
/// When `next` is past the last slot, a slot is added and `next` moves one
/// further; otherwise the slot was vacant and `next` becomes the slot freed
/// before it, which is left unsaid.
#[verifier::external_body]
fn slab_insert(s: &mut slab::Slab<u64>, value: u64) -> (key: usize)
    ensures
        key == slab_next(*old(s)),
        !slab_entries(*old(s)).contains_key(key),
        slab_entries(*final(s)) == slab_entries(*old(s)).insert(key, value),
        slab_next(*old(s)) == slab_slots(*old(s)) ==> slab_slots(*final(s)) == key + 1
            && slab_next(*final(s)) == key + 1,
        slab_next(*old(s)) < slab_slots(*old(s)) ==> slab_slots(*final(s)) == slab_slots(
            *old(s),
        ),
{
    s.insert(value)
}

/// Calls `slab::Slab::get`: the value stored under `key`, if the slot is occupied.
#[verifier::external_body]
fn slab_get(s: &slab::Slab<u64>, key: usize) -> (r: Option<u64>)
    ensures
        r == (if slab_entries(*s).contains_key(key) {
            Some(slab_entries(*s)[key])
        } else {
            None::<u64>
        }),
{
    s.get(key).copied()
}

/// Calls `slab::Slab::remove`, which panics on a vacant key and otherwise
/// frees the slot, makes it the next key handed out, and returns its value.
#[verifier::external_body]
fn slab_remove(s: &mut slab::Slab<u64>, key: usize) -> (value: u64)
    requires
        slab_entries(*old(s)).contains_key(key),
    ensures
        value == slab_entries(*old(s))[key],
        slab_entries(*final(s)) == slab_entries(*old(s)).remove(key),
        key < slab_slots(*old(s)),
        slab_next(*final(s)) == key,
        slab_slots(*final(s)) == slab_slots(*old(s)),
{
    s.remove(key)
}

/// How far the node `id` stands below the clock: larger for older nodes.
pub open spec fn rank(stamps: Map<usize, nat>, clock: nat, id: usize) -> nat {
    if stamps[id] < clock {
        (clock - stamps[id]) as nat
    } else {
        0
    }
}

/// Whether `c`, listed as a child of a node stamped `floor`, is a live node
/// added after it.
pub open spec fn is_later_child(
    children: Map<usize, Seq<usize>>,
    stamps: Map<usize, nat>,
    clock: nat,
    floor: nat,
    c: usize,
) -> bool {
    children.contains_key(c) && floor < stamps[c] && stamps[c] < clock
}

/// The ids visited, in preorder, by a walk from `id` that descends into
/// every live child.
pub open spec fn subtree_of(
    children: Map<usize, Seq<usize>>,
    stamps: Map<usize, nat>,
    clock: nat,
    id: usize,
) -> Seq<usize>
    decreases rank(stamps, clock, id), 1nat, 0nat,
{
    if children.contains_key(id) {
        seq![id] + subtree_of_list(children, stamps, clock, stamps[id], children[id])
    } else {
        seq![id]
    }
}

/// The walks from each id of `ids` in turn, concatenated.
pub open spec fn subtree_of_list(
    children: Map<usize, Seq<usize>>,
    stamps: Map<usize, nat>,
    clock: nat,
    floor: nat,
    ids: Seq<usize>,
) -> Seq<usize>
    decreases (if floor < clock {
        (clock - floor) as nat
    } else {
        0nat
    }), 0nat, ids.len(),
{
    if ids.len() == 0 {
        seq![]
    } else {
        let c = ids.last();
        let piece = if is_later_child(children, stamps, clock, floor, c) {
            subtree_of(children, stamps, clock, c)
        } else {
            seq![c]
        };
        subtree_of_list(children, stamps, clock, floor, ids.drop_last()) + piece
    }
}

/// The ids of a sequence of node keys.
pub open spec fn node_ids(keys: Seq<usize>) -> Seq<NodeId> {
    keys.map_values(|k: usize| NodeId(k))
}

/// A tree of nodes, each standing for a value chosen by the caller.
pub struct Tree {
    data: slab::Slab<u64>,
    structure: HashMap<usize, Vec<usize>>,
    /// When each node was added, counted in additions.
    stamps: Ghost<Map<usize, nat>>,
    /// The number of additions so far.
    clock: Ghost<nat>,
}

impl Tree {
    /// The live nodes and their values.
    pub closed spec fn values(&self) -> Map<usize, u64> {
        slab_entries(self.data)
    }

    /// The live nodes and the ids listed as their children, in order. A listed
    /// id may belong to a node since removed, or to a later node that reused it.
    pub closed spec fn children(&self) -> Map<usize, Seq<usize>> {
        self.structure@.map_values(|v: Vec<usize>| v@)
    }

    /// The ids that `collect_ids` lists from `id`: `id`, then the walk from
    /// each of its children in order.
    pub closed spec fn subtree(&self, id: usize) -> Seq<usize> {
        subtree_of(self.children(), self.stamps@, self.clock@, id)
    }

    /// The id that the next added node gets.
    pub closed spec fn next_id(&self) -> usize {
        slab_next(self.data)
    }

    /// Whether ids are being handed out in order: no id has been freed and
    /// not taken again, so each added node gets the id one past the last.
    pub closed spec fn ids_in_order(&self) -> bool {
        slab_next(self.data) == slab_slots(self.data)
    }

    /// How many additions ago the node `id` was added: walks from a node
    /// only descend to nodes added later.
    pub closed spec fn walk_rank(&self, id: usize) -> nat {
        rank(self.stamps@, self.clock@, id)
    }

    /// The well-formedness of a tree: its slab and its structure hold the same
    /// nodes, and following a live child always leads to a node added later,
    /// so that no walk goes round in a circle.
    pub closed spec fn wf(&self) -> bool {
        &&& self.structure@.dom() == slab_entries(self.data).dom()
        &&& forall|id: usize| #[trigger]
            self.structure@.contains_key(id) ==> self.stamps@[id] < self.clock@
        &&& forall|p: usize, i: int|
            #![trigger self.structure@[p]@[i]]
            self.structure@.contains_key(p) && 0 <= i < self.structure@[p]@.len()
                && self.structure@.contains_key(self.structure@[p]@[i]) ==> self.stamps@[p]
                < self.stamps@[self.structure@[p]@[i]]
    }

    /// Whether the walk from `root` lists every live node exactly once and
    /// nothing else.
    pub open spec fn covers(&self, root: usize) -> bool {
        forall|y: usize|
            #[trigger] occurrences(self.subtree(root), y) == if self.values().contains_key(y) {
                1nat
            } else {
                0nat
            }
    }

    /// Whether `remove_node` may be called on `id`: every id that the walk
    /// from `id` reaches is a live node, and none is reached twice.
    pub open spec fn can_remove(&self, id: usize) -> bool {
        &&& forall|i: int|
            0 <= i < self.subtree(id).len() ==> self.values().contains_key(
                #[trigger] self.subtree(id)[i],
            )
        &&& self.subtree(id).no_duplicates()
    }

    /// A tree with one node, the root, standing for `root_value`.
    pub fn new(root_value: u64) -> (r: (Self, NodeId))
        ensures
            r.0.wf(),
            r.0.values() == map![r.1.0 => root_value],
            r.0.children() == map![r.1.0 => Seq::<usize>::empty()],
            r.1.0 == 0,
            r.0.next_id() == 1,
            r.0.ids_in_order(),
            r.0.covers(r.1.0),
            shaped(r.0.children(), r.0.values().dom(), r.1.0),
    {
        let mut data = slab_with_capacity(64);
        let root_id = slab_insert(&mut data, root_value);
        let mut structure: HashMap<usize, Vec<usize>> = HashMap::new();
        structure.insert(root_id, Vec::new());
        let ghost stamps = Map::<usize, nat>::empty().insert(root_id, 0nat);
        let tree = Tree {
            data,
            structure,
            stamps: Ghost(stamps),
            clock: Ghost(1nat),
        };
        assert(tree.values() =~= map![root_id => root_value]);
        assert(tree.children() =~= map![root_id => Seq::<usize>::empty()]);
        proof {
            law_new_tree_is_shaped(root_id, root_value);
            assert(tree.subtree(root_id) =~= seq![root_id]);
            assert forall|y: usize|
                #[trigger] occurrences(tree.subtree(root_id), y) == if tree.values().contains_key(y) {
                    1nat
                } else {
                    0nat
                } by {
                lemma_occurrences_single(root_id, y);
            }
        }
        (tree, NodeId::from(root_id))
    }

    /// Appends to `all` the id `id` and then, child by child in order, the ids
    /// collected from each listed child that is a live node; a listed child
    /// that is not live is appended alone.
    pub fn collect_ids(&self, id: NodeId, all: &mut Vec<NodeId>)
        requires
            self.wf(),
        ensures
            final(all)@ == old(all)@ + node_ids(self.subtree(id.0)),
        decreases self.walk_rank(id.0),
    {
        let ghost start = old(all)@;
        all.push(id);
        let raw = usize::from(id);
        match self.structure.get(&raw) {
            Some(children) => {
                let ghost st = self.stamps@;
                let ghost clock = self.clock@;
                let ghost kids = self.children();
                let n = children.len();
                let mut j: usize = 0;
                assert(children@.take(0) =~= Seq::<usize>::empty());
                assert(node_ids(seq![raw]) =~= seq![id]);
                assert(start.push(id) =~= start + node_ids(seq![raw]));
                while j < n
                    invariant
                        self.wf(),
                        st == self.stamps@,
                        clock == self.clock@,
                        kids == self.children(),
                        self.structure@.contains_key(raw),
                        children@ == self.structure@[raw]@,
                        kids[raw] == children@,
                        n == children@.len(),
                        j <= n,
                        raw == id.0,
                        all@ == start + node_ids(
                            seq![raw] + subtree_of_list(kids, st, clock, st[raw], children@.take(j as int)),
                        ),
                    decreases n - j,
                {
                    let c = children[j];
                    let ghost before = all@;
                    let ghost prefix = subtree_of_list(kids, st, clock, st[raw], children@.take(j as int));
                    assert(children@.take(j + 1).drop_last() =~= children@.take(j as int));
                    assert(children@.take(j + 1).last() == c);
                    if self.structure.contains_key(&c) {
                        assert(self.structure@[raw]@[j as int] == c);
                        assert(st[raw] < st[c]);
                        assert(st[c] < clock);
                        assert(is_later_child(kids, st, clock, st[raw], c));
                        self.collect_ids(NodeId::from(c), all);
                        assert(subtree_of_list(kids, st, clock, st[raw], children@.take(j + 1)) == prefix
                            + subtree_of(kids, st, clock, c));
                        assert(node_ids(seq![raw] + prefix + subtree_of(kids, st, clock, c)) =~= node_ids(
                            seq![raw] + prefix,
                        ) + node_ids(subtree_of(kids, st, clock, c)));
                        assert(seq![raw] + (prefix + subtree_of(kids, st, clock, c)) =~= seq![raw] + prefix
                            + subtree_of(kids, st, clock, c));
                    } else {
                        all.push(NodeId::from(c));
                        assert(!kids.contains_key(c));
                        assert(subtree_of_list(kids, st, clock, st[raw], children@.take(j + 1)) == prefix
                            + seq![c]);
                        assert(node_ids(seq![raw] + prefix + seq![c]) =~= node_ids(seq![raw] + prefix).push(
                            NodeId(c),
                        ));
                        assert(seq![raw] + (prefix + seq![c]) =~= seq![raw] + prefix + seq![c]);
                    }
                    j = j + 1;
                }
                assert(children@.take(n as int) =~= children@);
            },
            None => {
                assert(!self.children().contains_key(raw));
                assert(node_ids(seq![raw]) =~= seq![id]);
            },
        }
    }

    /// Removes the node `node_id` and every node that the walk from it reaches
    /// (the ids that `collect_ids` lists), and returns their values in that
    /// order. The id of the node stays in the children of its parent.
    pub fn remove_node(&mut self, node_id: NodeId) -> (removed: Vec<u64>)
        requires
            old(self).wf(),
            old(self).can_remove(node_id.0),
        ensures
            final(self).wf(),
            final(self).values() == old(self).values().remove_keys(
                old(self).subtree(node_id.0).to_set(),
            ),
            final(self).children() == old(self).children().remove_keys(
                old(self).subtree(node_id.0).to_set(),
            ),
            removed@ == old(self).subtree(node_id.0).map_values(|k: usize| old(self).values()[k]),
            final(self).next_id() == old(self).subtree(node_id.0).last(),
            !final(self).ids_in_order(),
    {
        let ghost ids = old(self).subtree(node_id.0);
        let ghost old_values = old(self).values();
        let ghost old_structure = old(self).structure@;
        let mut nodes_to_remove: Vec<NodeId> = Vec::new();
        self.collect_ids(node_id, &mut nodes_to_remove);
        assert(nodes_to_remove@ =~= node_ids(ids));
        let mut removed: Vec<u64> = Vec::new();
        let mut i: usize = 0;
        while i < nodes_to_remove.len()
            invariant
                self.wf(),
                self.stamps == old(self).stamps,
                self.clock == old(self).clock,
                nodes_to_remove@ == node_ids(ids),
                ids.no_duplicates(),
                forall|k: int| 0 <= k < ids.len() ==> old_values.contains_key(#[trigger] ids[k]),
                0 <= i <= ids.len(),
                forall|key: usize|
                    #![trigger self.structure@.contains_key(key)]
                    self.structure@.contains_key(key) <==> old_structure.contains_key(key)
                        && !ids.take(i as int).contains(key),
                forall|key: usize|
                    #![trigger self.structure@[key]]
                    self.structure@.contains_key(key) ==> self.structure@[key] == old_structure[key],
                forall|key: usize|
                    #![trigger slab_entries(self.data).contains_key(key)]
                    slab_entries(self.data).contains_key(key) <==> old_values.contains_key(key)
                        && !ids.take(i as int).contains(key),
                forall|key: usize|
                    #![trigger slab_entries(self.data)[key]]
                    slab_entries(self.data).contains_key(key) ==> slab_entries(self.data)[key]
                        == old_values[key],
                removed@ == ids.take(i as int).map_values(|k: usize| old_values[k]),
                i > 0 ==> slab_next(self.data) == ids[i - 1] && slab_next(self.data) < slab_slots(
                    self.data,
                ),
            decreases ids.len() - i,
        {
            let id = usize::from(nodes_to_remove[i]);
            assert(id == ids[i as int]);
            assert(!ids.take(i as int).contains(id)) by {
                if ids.take(i as int).contains(id) {
                    let k = choose|k: int| 0 <= k < i && ids.take(i as int)[k] == id;
                    assert(ids[k] == ids[i as int]);
                }
            }
            assert(old_values.contains_key(ids[i as int]));
            self.structure.remove(&id);
            let value = slab_remove(&mut self.data, id);
            removed.push(value);
            assert(ids.take(i + 1) =~= ids.take(i as int).push(id));
            assert forall|key: usize|
                ids.take(i + 1).contains(key) <==> (ids.take(i as int).contains(key) || key
                    == id) by {
                if ids.take(i as int).contains(key) {
                    let k = choose|k: int| 0 <= k < i && ids.take(i as int)[k] == key;
                    assert(ids.take(i + 1)[k] == key);
                }
                if key == id {
                    assert(ids.take(i + 1)[i as int] == key);
                }
                let longer = ids.take(i + 1);
                if longer.contains(key) {
                    let k = choose|k: int| 0 <= k < longer.len() && longer[k] == key;
                    if k < i {
                        assert(ids.take(i as int)[k] == key);
                    }
                }
            }
            assert(removed@ =~= ids.take(i + 1).map_values(|k: usize| old_values[k]));
            i = i + 1;
        }
        assert(ids.take(ids.len() as int) =~= ids);
        proof {
            law_walk_starts_at_node(*old(self), node_id.0);
        }
        assert(self.values() =~= old_values.remove_keys(ids.to_set()));
        assert(self.children() =~= old(self).children().remove_keys(ids.to_set()));
        removed
    }

    /// Whether `remove_node` may be called on `node_id`: whether every id
    /// that `collect_ids` lists from it is a live node, none twice.
    pub fn removable(&self, node_id: NodeId) -> (r: bool)
        requires
            self.wf(),
        ensures
            r == self.can_remove(node_id.0),
    {
        let mut ids: Vec<NodeId> = Vec::new();
        self.collect_ids(node_id, &mut ids);
        let ghost walk = self.subtree(node_id.0);
        assert(ids@ =~= node_ids(walk));
        let n = ids.len();
        let mut i: usize = 0;
        while i < n
            invariant
                self.wf(),
                walk == self.subtree(node_id.0),
                n == walk.len(),
                ids@ == node_ids(walk),
                0 <= i <= n,
                forall|k: int| 0 <= k < i ==> self.values().contains_key(#[trigger] walk[k]),
                forall|k: int, l: int| 0 <= k < l < i ==> walk[k] != walk[l],
            decreases n - i,
        {
            let key = usize::from(ids[i]);
            assert(key == walk[i as int]);
            if !self.structure.contains_key(&key) {
                assert(!self.values().contains_key(walk[i as int]));
                assert(self.subtree(node_id.0)[i as int] == key);
                return false;
            }
            let mut j: usize = 0;
            while j < i
                invariant
                    walk == self.subtree(node_id.0),
                    n == walk.len(),
                    ids@ == node_ids(walk),
                    0 <= j <= i < n,
                    key == walk[i as int],
                    forall|k: int| 0 <= k < j ==> walk[k] != walk[i as int],
                decreases i - j,
            {
                if usize::from(ids[j]) == key {
                    assert(walk[j as int] == walk[i as int]);
                    assert(!walk.no_duplicates());
                    return false;
                }
                j = j + 1;
            }
            i = i + 1;
        }
        assert(walk.no_duplicates()) by {
            assert forall|k: int, l: int| 0 <= k < walk.len() && 0 <= l < walk.len() && k != l implies walk[k]
                != walk[l] by {
                if k < l {
                } else {
                }
            }
        }
        true
    }

    /// Whether `id` is a live node.
    pub fn contains(&self, id: NodeId) -> (r: bool)
        requires
            self.wf(),
        ensures
            r == self.values().contains_key(id.0),
    {
        self.structure.contains_key(&usize::from(id))
    }

    /// The value standing for the live node `id`.
    pub fn get_node(&self, id: usize) -> (value: u64)
        requires
            self.values().contains_key(id),
        ensures
            value == self.values()[id],
    {
        slab_get(&self.data, id).unwrap()
    }

    /// Adds a node standing for `value` as the last child of `parent_id`, and
    /// returns its id; returns `None`, changing nothing, when `parent_id` is
    /// not a live node. The new id is one that no live node has.
    pub fn add_node(&mut self, parent_id: NodeId, value: u64) -> (r: Option<NodeId>)
        requires
            old(self).wf(),
        ensures
            final(self).wf(),
            r is Some <==> old(self).values().contains_key(parent_id.0),
            r matches Some(id) ==> {
                &&& id.0 == old(self).next_id()
                &&& old(self).ids_in_order() ==> final(self).next_id() == id.0 + 1
                    && final(self).ids_in_order()
                &&& !old(self).values().contains_key(id.0)
                &&& final(self).values() == old(self).values().insert(id.0, value)
                &&& final(self).children() == old(self).children().insert(
                    parent_id.0,
                    old(self).children()[parent_id.0].push(id.0),
                ).insert(id.0, Seq::<usize>::empty())
            },
            forall|root: usize|
                #[trigger] shaped(old(self).children(), old(self).values().dom(), root) ==> shaped(
                    final(self).children(),
                    final(self).values().dom(),
                    root,
                ),
            forall|root: usize|
                shaped(old(self).children(), old(self).values().dom(), root) && old(self).covers(root)
                    ==> #[trigger] final(self).covers(root),
            r is None ==> final(self).values() == old(self).values() && final(self).children()
                == old(self).children() && final(self).next_id() == old(self).next_id()
                && final(self).ids_in_order() == old(self).ids_in_order(),
    {
        let parent = usize::from(parent_id);
        if self.structure.contains_key(&parent) {
            let ghost old_structure = self.structure@;
            let ghost old_stamps = self.stamps@;
            let ghost old_clock = self.clock@;
            let node_id = slab_insert(&mut self.data, value);
            let mut siblings = self.structure.remove(&parent).unwrap();
            siblings.push(node_id);
            self.structure.insert(parent, siblings);
            self.structure.insert(node_id, Vec::new());
            self.stamps = Ghost(old_stamps.insert(node_id, old_clock));
            self.clock = Ghost(old_clock + 1);
            proof {
                assert(self.structure@ == old_structure.insert(parent, old_structure[parent]).insert(
                    parent,
                    self.structure@[parent],
                ).insert(node_id, self.structure@[node_id]));
                assert forall|p: usize, i: int|
                    #![trigger self.structure@[p]@[i]]
                    self.structure@.contains_key(p) && 0 <= i < self.structure@[p]@.len()
                        && self.structure@.contains_key(
                        self.structure@[p]@[i],
                    ) implies self.stamps@[p] < self.stamps@[self.structure@[p]@[i]] by {
                    let c = self.structure@[p]@[i];
                    if p == node_id {
                    } else if p == parent {
                        if i < old_structure[parent]@.len() {
                            assert(self.structure@[p]@[i] == old_structure[p]@[i]);
                            if c != node_id {
                                assert(old_structure.contains_key(c));
                            }
                        }
                    } else {
                        assert(self.structure@[p] == old_structure[p]);
                        if c != node_id {
                            assert(old_structure.contains_key(c));
                        }
                    }
                }
                assert(self.children() =~= old(self).children().insert(
                    parent,
                    old(self).children()[parent].push(node_id),
                ).insert(node_id, Seq::<usize>::empty()));
                lemma_covers_after_add(*old(self), *self, parent, node_id, value);
                assert forall|root: usize|
                    #[trigger] shaped(old(self).children(), old(self).values().dom(), root) implies shaped(
                    self.children(),
                    self.values().dom(),
                    root,
                ) by {
                    law_add_keeps_shape(
                        old(self).children(),
                        old(self).values(),
                        root,
                        parent,
                        node_id,
                        value,
                    );
                }
            }
            Some(NodeId::from(node_id))
        } else {
            None
        }
    }
}

/// The walks of `t` from each id of `ids` in turn, concatenated, where the
/// walk from an id that is not a live node is that id alone.
pub open spec fn walk_list(t: Tree, ids: Seq<usize>) -> Seq<usize>
    decreases ids.len(),
{
    if ids.len() == 0 {
        seq![]
    } else {
        let c = ids.last();
        let piece = if t.values().contains_key(c) {
            t.subtree(c)
        } else {
            seq![c]
        };
        walk_list(t, ids.drop_last()) + piece
    }
}

/// Relates the walk over a list of children to `walk_list`, prefix by prefix.
proof fn lemma_walk_list_agrees(t: Tree, p: usize, ids: Seq<usize>)
    requires
        t.wf(),
        t.structure@.contains_key(p),
        ids.len() <= t.structure@[p]@.len(),
        ids == t.structure@[p]@.take(ids.len() as int),
    ensures
        subtree_of_list(t.children(), t.stamps@, t.clock@, t.stamps@[p], ids) == walk_list(t, ids),
    decreases ids.len(),
{
    if ids.len() > 0 {
        let kids = t.structure@[p]@;
        let k = ids.len() - 1;
        assert(ids.drop_last() =~= kids.take(k));
        lemma_walk_list_agrees(t, p, ids.drop_last());
        let c = ids.last();
        assert(kids[k] == c);
        if t.values().contains_key(c) {
            assert(t.structure@.contains_key(c));
            assert(t.structure@[p]@[k] == c);
            assert(is_later_child(t.children(), t.stamps@, t.clock@, t.stamps@[p], c));
        } else {
            assert(!t.children().contains_key(c));
        }
    }
}

/// The walk from a live node is the node followed by the walks from its
/// listed children, in order; the walk from any other id is that id alone.
/// This is the order in which `collect_ids` lists ids and `remove_node`
/// returns values.
pub proof fn law_walk_unfolds(t: Tree, id: usize)
    requires
        t.wf(),
    ensures
        t.subtree(id) == if t.values().contains_key(id) {
            seq![id] + walk_list(t, t.children()[id])
        } else {
            seq![id]
        },
{
    if t.values().contains_key(id) {
        assert(t.structure@.contains_key(id));
        let kids = t.structure@[id]@;
        assert(kids.take(kids.len() as int) =~= kids);
        lemma_walk_list_agrees(t, id, kids);
    }
}

/// How many times `y` occurs in `s`.
pub open spec fn occurrences(s: Seq<usize>, y: usize) -> nat
    decreases s.len(),
{
    if s.len() == 0 {
        0
    } else {
        occurrences(s.drop_last(), y) + if s.last() == y {
            1nat
        } else {
            0nat
        }
    }
}

/// Occurrences in a one-element sequence.
pub proof fn lemma_occurrences_single(x: usize, y: usize)
    ensures
        occurrences(seq![x], y) == if x == y {
            1nat
        } else {
            0nat
        },
{
    assert(seq![x].drop_last() =~= Seq::<usize>::empty());
    assert(occurrences(Seq::<usize>::empty(), y) == 0);
}

/// Occurrences in a concatenation add up.
pub proof fn lemma_occurrences_concat(a: Seq<usize>, b: Seq<usize>, y: usize)
    ensures
        occurrences(a + b, y) == occurrences(a, y) + occurrences(b, y),
    decreases b.len(),
{
    if b.len() == 0 {
        assert(a + b =~= a);
    } else {
        assert((a + b).drop_last() =~= a + b.drop_last());
        lemma_occurrences_concat(a, b.drop_last(), y);
    }
}

/// An element occurs in a sequence exactly when it is contained in it.
pub proof fn lemma_occurrences_contains(s: Seq<usize>, y: usize)
    ensures
        s.contains(y) <==> occurrences(s, y) > 0,
    decreases s.len(),
{
    if s.len() > 0 {
        lemma_occurrences_contains(s.drop_last(), y);
        if s.drop_last().contains(y) {
            let i = choose|i: int| 0 <= i < s.drop_last().len() && s.drop_last()[i] == y;
            assert(s[i] == y);
        }
        if s.last() == y {
            assert(s[s.len() - 1] == y);
        }
        if s.contains(y) {
            let i = choose|i: int| 0 <= i < s.len() && s[i] == y;
            if i < s.len() - 1 {
                assert(s.drop_last()[i] == y);
            }
        }
    }
}

/// An element at two places of a sequence occurs at least twice.
pub proof fn lemma_occurrences_twice(s: Seq<usize>, i: int, j: int)
    requires
        0 <= i < j < s.len(),
        s[i] == s[j],
    ensures
        occurrences(s, s[i]) >= 2,
    decreases s.len(),
{
    if j == s.len() - 1 {
        assert(s.drop_last()[i] == s[i]);
        lemma_occurrences_contains(s.drop_last(), s[i]);
    } else {
        assert(s.drop_last()[i] == s[i] && s.drop_last()[j] == s[j]);
        lemma_occurrences_twice(s.drop_last(), i, j);
    }
}

/// No id except `x` itself that is older than or as old as `x` occurs in the
/// walk from `x`.
proof fn lemma_walk_holds_no_older(t: Tree, x: usize, z: usize)
    requires
        t.wf(),
        t.values().contains_key(z),
        z != x,
        t.values().contains_key(x) ==> t.stamps@[z] <= t.stamps@[x],
    ensures
        occurrences(t.subtree(x), z) == 0,
    decreases t.walk_rank(x), 1nat, 0nat,
{
    if t.children().contains_key(x) {
        let kids = t.children()[x];
        assert(t.structure@.contains_key(x));
        assert(kids.take(kids.len() as int) =~= kids);
        lemma_list_holds_no_older(t, x, z, kids);
        lemma_occurrences_concat(
            seq![x],
            subtree_of_list(t.children(), t.stamps@, t.clock@, t.stamps@[x], kids),
            z,
        );
    }
    lemma_occurrences_single(x, z);
}

proof fn lemma_list_holds_no_older(t: Tree, x: usize, z: usize, ids: Seq<usize>)
    requires
        t.wf(),
        t.children().contains_key(x),
        t.values().contains_key(z),
        t.stamps@[z] <= t.stamps@[x],
        ids.len() <= t.children()[x].len(),
        ids == t.children()[x].take(ids.len() as int),
    ensures
        occurrences(subtree_of_list(t.children(), t.stamps@, t.clock@, t.stamps@[x], ids), z) == 0,
    decreases t.walk_rank(x), 0nat, ids.len(),
{
    if ids.len() > 0 {
        let c = ids.last();
        let k = ids.len() - 1;
        let kids = t.children()[x];
        assert(ids.drop_last() =~= kids.take(k));
        assert(kids[k] == c);
        assert(t.structure@.contains_key(x));
        assert(t.structure@[x]@[k] == c);
        let rest = subtree_of_list(t.children(), t.stamps@, t.clock@, t.stamps@[x], ids.drop_last());
        lemma_list_holds_no_older(t, x, z, ids.drop_last());
        if is_later_child(t.children(), t.stamps@, t.clock@, t.stamps@[x], c) {
            lemma_walk_holds_no_older(t, c, z);
            lemma_occurrences_concat(rest, t.subtree(c), z);
        } else {
            assert(t.children().dom() == t.values().dom()) by {
                law_live_nodes_have_child_lists(t);
            }
            assert(!t.children().contains_key(c) || !(t.stamps@[x] < t.stamps@[c]) || !(t.stamps@[c]
                < t.clock@));
            assert(c != z);
            lemma_occurrences_concat(rest, seq![c], z);
            lemma_occurrences_single(c, z);
        }
    }
}

/// How the walk from `x` changes when `after` is `before` with the node `id`
/// added as the last child of `parent`: `id` now occurs wherever `parent`
/// occurred, and nothing else changes.
proof fn lemma_walk_after_add(before: Tree, after: Tree, parent: usize, id: usize, x: usize, y: usize)
    requires
        before.wf(),
        after.wf(),
        before.values().contains_key(parent),
        !before.values().contains_key(id),
        after.children() == before.children().insert(parent, before.children()[parent].push(id)).insert(
            id,
            Seq::<usize>::empty(),
        ),
        after.stamps@ == before.stamps@.insert(id, before.clock@),
        after.clock@ == before.clock@ + 1,
        forall|q: usize, i: int|
            #![trigger before.children()[q][i]]
            before.children().contains_key(q) && 0 <= i < before.children()[q].len()
                ==> before.values().contains_key(before.children()[q][i]),
    ensures
        occurrences(after.subtree(x), y) == occurrences(before.subtree(x), y) + if y == id {
            occurrences(before.subtree(x), parent)
        } else {
            0
        },
    decreases after.walk_rank(x), 1nat, 0nat,
{
    law_live_nodes_have_child_lists(before);
    lemma_occurrences_single(x, y);
    lemma_occurrences_single(x, parent);
    if !after.children().contains_key(x) {
        assert(!before.children().contains_key(x));
    } else if x == id {
        assert(!before.children().contains_key(id));
        assert(after.children()[id] == Seq::<usize>::empty());
        assert(after.subtree(id) =~= seq![id]);
    } else {
        let kids = before.children()[x];
        let floor = before.stamps@[x];
        assert(after.stamps@[x] == floor);
        let old_list = subtree_of_list(before.children(), before.stamps@, before.clock@, floor, kids);
        let new_list = subtree_of_list(after.children(), after.stamps@, after.clock@, floor, kids);
        assert(kids.take(kids.len() as int) =~= kids);
        lemma_list_after_add(before, after, parent, id, x, y, kids);
        lemma_list_after_add(before, after, parent, id, x, parent, kids);
        lemma_occurrences_concat(seq![x], old_list, y);
        lemma_occurrences_concat(seq![x], old_list, parent);
        if x == parent {
            let grown = kids.push(id);
            assert(after.children()[x] == grown);
            assert(grown.drop_last() =~= kids);
            assert(is_later_child(after.children(), after.stamps@, after.clock@, floor, id));
            assert(after.children()[id] == Seq::<usize>::empty());
            assert(after.subtree(id) =~= seq![id]);
            lemma_occurrences_concat(new_list, seq![id], y);
            lemma_occurrences_single(id, y);
            lemma_occurrences_concat(seq![x], new_list + seq![id], y);
            assert(seq![x] + (new_list + seq![id]) =~= seq![x] + new_list + seq![id]);
            lemma_list_holds_no_older(before, parent, parent, kids);
        } else {
            assert(after.children()[x] == kids);
            lemma_occurrences_concat(seq![x], new_list, y);
        }
    }
}

proof fn lemma_list_after_add(
    before: Tree,
    after: Tree,
    parent: usize,
    id: usize,
    x: usize,
    y: usize,
    ids: Seq<usize>,
)
    requires
        before.wf(),
        after.wf(),
        before.values().contains_key(parent),
        !before.values().contains_key(id),
        after.children() == before.children().insert(parent, before.children()[parent].push(id)).insert(
            id,
            Seq::<usize>::empty(),
        ),
        after.stamps@ == before.stamps@.insert(id, before.clock@),
        after.clock@ == before.clock@ + 1,
        forall|q: usize, i: int|
            #![trigger before.children()[q][i]]
            before.children().contains_key(q) && 0 <= i < before.children()[q].len()
                ==> before.values().contains_key(before.children()[q][i]),
        before.children().contains_key(x),
        x != id,
        ids.len() <= before.children()[x].len(),
        ids == before.children()[x].take(ids.len() as int),
    ensures
        ({
            let floor = before.stamps@[x];
            let old_list = subtree_of_list(before.children(), before.stamps@, before.clock@, floor, ids);
            let new_list = subtree_of_list(after.children(), after.stamps@, after.clock@, floor, ids);
            occurrences(new_list, y) == occurrences(old_list, y) + if y == id {
                occurrences(old_list, parent)
            } else {
                0
            }
        }),
    decreases after.walk_rank(x), 0nat, ids.len(),
{
    if ids.len() > 0 {
        let floor = before.stamps@[x];
        let k = ids.len() - 1;
        let c = ids.last();
        let kids = before.children()[x];
        assert(ids.drop_last() =~= kids.take(k));
        assert(kids[k] == c);
        lemma_list_after_add(before, after, parent, id, x, y, ids.drop_last());
        lemma_list_after_add(before, after, parent, id, x, parent, ids.drop_last());
        assert(before.values().contains_key(c));
        assert(before.structure@.contains_key(x));
        assert(before.structure@[x]@[k] == c);
        assert(before.structure@.contains_key(c));
        assert(floor < before.stamps@[c]);
        assert(c != id);
        assert(is_later_child(before.children(), before.stamps@, before.clock@, floor, c));
        assert(after.stamps@[c] == before.stamps@[c]);
        assert(is_later_child(after.children(), after.stamps@, after.clock@, floor, c));
        assert(after.stamps@[x] == floor);
        lemma_walk_after_add(before, after, parent, id, c, y);
        lemma_walk_after_add(before, after, parent, id, c, parent);
        let old_rest = subtree_of_list(before.children(), before.stamps@, before.clock@, floor, ids.drop_last());
        let new_rest = subtree_of_list(after.children(), after.stamps@, after.clock@, floor, ids.drop_last());
        lemma_occurrences_concat(old_rest, before.subtree(c), y);
        lemma_occurrences_concat(old_rest, before.subtree(c), parent);
        lemma_occurrences_concat(new_rest, after.subtree(c), y);
    }
}

/// Adding a node keeps a shaped tree covered by the walk from its root.
proof fn lemma_covers_after_add(before: Tree, after: Tree, parent: usize, id: usize, value: u64)
    requires
        before.wf(),
        after.wf(),
        before.values().contains_key(parent),
        !before.values().contains_key(id),
        after.values() == before.values().insert(id, value),
        after.children() == before.children().insert(parent, before.children()[parent].push(id)).insert(
            id,
            Seq::<usize>::empty(),
        ),
        after.stamps@ == before.stamps@.insert(id, before.clock@),
        after.clock@ == before.clock@ + 1,
    ensures
        forall|root: usize|
            shaped(before.children(), before.values().dom(), root) && before.covers(root)
                ==> #[trigger] after.covers(root),
{
    assert forall|root: usize|
        shaped(before.children(), before.values().dom(), root) && before.covers(root) implies #[trigger] after.covers(
        root,
    ) by {
        assert forall|y: usize|
            #[trigger] occurrences(after.subtree(root), y) == if after.values().contains_key(y) {
                1nat
            } else {
                0nat
            } by {
            lemma_walk_after_add(before, after, parent, id, root, y);
            assert(occurrences(before.subtree(root), y) == if before.values().contains_key(y) {
                1nat
            } else {
                0nat
            });
            assert(occurrences(before.subtree(root), parent) == 1nat);
        }
    }
}

/// When the walk from `root` covers the tree, it lists exactly the live
/// nodes, each once, and so the root may be removed.
pub proof fn law_covering_walk(t: Tree, root: usize)
    requires
        t.covers(root),
    ensures
        t.can_remove(root),
        forall|y: usize| t.subtree(root).contains(y) <==> t.values().contains_key(y),
        t.subtree(root).len() == t.values().len(),
{
    let walk = t.subtree(root);
    assert forall|y: usize| walk.contains(y) <==> t.values().contains_key(y) by {
        lemma_occurrences_contains(walk, y);
        assert(occurrences(walk, y) == if t.values().contains_key(y) {
            1nat
        } else {
            0nat
        });
    }
    assert forall|i: int| 0 <= i < walk.len() implies t.values().contains_key(#[trigger] walk[i]) by {
        assert(walk.contains(walk[i]));
    }
    assert forall|i: int, j: int| 0 <= i < walk.len() && 0 <= j < walk.len() && i != j implies walk[i]
        != walk[j] by {
        if walk[i] == walk[j] {
            if i < j {
                lemma_occurrences_twice(walk, i, j);
            } else {
                lemma_occurrences_twice(walk, j, i);
            }
            assert(occurrences(walk, walk[i]) <= 1);
        }
    }
    walk.unique_seq_to_set();
    assert(walk.to_set() =~= t.values().dom());
}

/// Where a live node `n` occurs in the walk from `x`, the walk from `n`
/// occurs there whole: nothing occurs fewer times in the walk from `x` than
/// in the walk from `n`.
proof fn lemma_walk_contains_subwalk(t: Tree, x: usize, n: usize, y: usize)
    requires
        t.wf(),
        t.values().contains_key(n),
        occurrences(t.subtree(x), n) >= 1,
    ensures
        occurrences(t.subtree(x), y) >= occurrences(t.subtree(n), y),
    decreases t.walk_rank(x), 1nat, 0nat,
{
    lemma_occurrences_single(x, n);
    lemma_occurrences_single(x, y);
    if x != n {
        if t.children().contains_key(x) {
            let kids = t.children()[x];
            let list = subtree_of_list(t.children(), t.stamps@, t.clock@, t.stamps@[x], kids);
            lemma_occurrences_concat(seq![x], list, n);
            lemma_occurrences_concat(seq![x], list, y);
            assert(t.structure@.contains_key(x));
            assert(kids.take(kids.len() as int) =~= kids);
            lemma_list_contains_subwalk(t, x, n, y, kids);
        }
    }
}

proof fn lemma_list_contains_subwalk(t: Tree, x: usize, n: usize, y: usize, ids: Seq<usize>)
    requires
        t.wf(),
        t.children().contains_key(x),
        t.values().contains_key(n),
        ids.len() <= t.children()[x].len(),
        ids == t.children()[x].take(ids.len() as int),
        occurrences(subtree_of_list(t.children(), t.stamps@, t.clock@, t.stamps@[x], ids), n) >= 1,
    ensures
        occurrences(subtree_of_list(t.children(), t.stamps@, t.clock@, t.stamps@[x], ids), y)
            >= occurrences(t.subtree(n), y),
    decreases t.walk_rank(x), 0nat, ids.len(),
{
    if ids.len() > 0 {
        let floor = t.stamps@[x];
        let k = ids.len() - 1;
        let c = ids.last();
        let kids = t.children()[x];
        assert(ids.drop_last() =~= kids.take(k));
        assert(kids[k] == c);
        assert(t.structure@.contains_key(x));
        assert(t.structure@[x]@[k] == c);
        let rest = subtree_of_list(t.children(), t.stamps@, t.clock@, floor, ids.drop_last());
        let piece = if is_later_child(t.children(), t.stamps@, t.clock@, floor, c) {
            t.subtree(c)
        } else {
            seq![c]
        };
        lemma_occurrences_concat(rest, piece, n);
        lemma_occurrences_concat(rest, piece, y);
        if occurrences(rest, n) >= 1 {
            lemma_list_contains_subwalk(t, x, n, y, ids.drop_last());
        } else if is_later_child(t.children(), t.stamps@, t.clock@, floor, c) {
            lemma_walk_contains_subwalk(t, c, n, y);
        } else {
            lemma_occurrences_single(c, n);
            law_live_nodes_have_child_lists(t);
            assert(c == n);
            assert(t.structure@.contains_key(c));
        }
    }
}

/// In a tree whose walk from `root` covers it, the walk from every live node
/// lists live nodes only, each once, so every live node may be removed.
pub proof fn law_every_node_removable(t: Tree, root: usize, n: usize)
    requires
        t.wf(),
        t.covers(root),
        t.values().contains_key(n),
    ensures
        t.can_remove(n),
{
    let walk = t.subtree(n);
    assert(occurrences(t.subtree(root), n) == 1nat);
    assert forall|y: usize| #[trigger] occurrences(walk, y) <= if t.values().contains_key(y) {
        1nat
    } else {
        0nat
    } by {
        lemma_walk_contains_subwalk(t, root, n, y);
        assert(occurrences(t.subtree(root), y) == if t.values().contains_key(y) {
            1nat
        } else {
            0nat
        });
    }
    assert forall|i: int| 0 <= i < walk.len() implies t.values().contains_key(#[trigger] walk[i]) by {
        assert(walk.contains(walk[i]));
        lemma_occurrences_contains(walk, walk[i]);
        assert(occurrences(walk, walk[i]) <= if t.values().contains_key(walk[i]) {
            1nat
        } else {
            0nat
        });
    }
    assert forall|i: int, j: int| 0 <= i < walk.len() && 0 <= j < walk.len() && i != j implies walk[i]
        != walk[j] by {
        if walk[i] == walk[j] {
            if i < j {
                lemma_occurrences_twice(walk, i, j);
            } else {
                lemma_occurrences_twice(walk, j, i);
            }
            assert(occurrences(walk, walk[i]) <= 1);
        }
    }
}

/// The walk from any id starts at that id.
pub proof fn law_walk_starts_at_node(t: Tree, id: usize)
    ensures
        t.subtree(id).len() >= 1,
        t.subtree(id)[0] == id,
{
}

/// A node without children is alone in the walk from it, and so may be
/// removed.
pub proof fn law_leaf_walk_is_itself(t: Tree, id: usize)
    requires
        t.wf(),
        t.values().contains_key(id),
        t.children()[id] == Seq::<usize>::empty(),
    ensures
        t.subtree(id) == seq![id],
        t.can_remove(id),
{
    assert(t.children().contains_key(id));
    assert(t.subtree(id) =~= seq![id]);
}

/// Adding a node and then removing it gives back the nodes and values of the
/// tree as they were; only the id of the removed node stays listed among the
/// children of its parent.
pub proof fn law_remove_undoes_add(
    before: Tree,
    added: Tree,
    after: Tree,
    parent: usize,
    id: usize,
    value: u64,
)
    requires
        before.wf(),
        added.wf(),
        before.values().contains_key(parent),
        !before.values().contains_key(id),
        added.values() == before.values().insert(id, value),
        added.children() == before.children().insert(parent, before.children()[parent].push(id)).insert(
            id,
            Seq::<usize>::empty(),
        ),
        after.values() == added.values().remove_keys(added.subtree(id).to_set()),
        after.children() == added.children().remove_keys(added.subtree(id).to_set()),
    ensures
        after.values() == before.values(),
        after.children() == before.children().insert(parent, before.children()[parent].push(id)),
{
    law_leaf_walk_is_itself(added, id);
    let walk = added.subtree(id);
    assert forall|x: usize| walk.to_set().contains(x) <==> x == id by {
        if x == id {
            assert(walk[0] == x);
        }
    }
    assert(walk.to_set() =~= set![id]);
    assert(before.children().dom() == before.values().dom()) by {
        assert(before.values().contains_key(parent));
        law_live_nodes_have_child_lists(before);
    }
    assert(after.values() =~= before.values());
    assert(after.children() =~= before.children().insert(parent, before.children()[parent].push(id)));
}

/// Whether the child lists `children` of the live nodes `live` form a tree
/// rooted at `root`: every live node has a list, every listed id is live, no
/// list holds an id twice, the root is in no list, and every other live node
/// is in exactly one list.
pub open spec fn shaped(children: Map<usize, Seq<usize>>, live: Set<usize>, root: usize) -> bool {
    &&& children.dom() == live
    &&& live.contains(root)
    &&& forall|p: usize, i: int|
        #![trigger children[p][i]]
        children.contains_key(p) && 0 <= i < children[p].len() ==> live.contains(children[p][i])
    &&& forall|p: usize| #[trigger] children.contains_key(p) ==> children[p].no_duplicates()
    &&& forall|p: usize| #[trigger] children.contains_key(p) ==> !children[p].contains(root)
    &&& forall|c: usize|
        #![trigger live.contains(c)]
        live.contains(c) && c != root ==> exists|p: usize|
            children.contains_key(p) && #[trigger] children[p].contains(c)
    &&& forall|c: usize, p1: usize, p2: usize|
        #![trigger children[p1].contains(c), children[p2].contains(c)]
        children.contains_key(p1) && children.contains_key(p2) && children[p1].contains(c)
            && children[p2].contains(c) ==> p1 == p2
}

/// A new tree is shaped as a tree rooted at its root.
pub proof fn law_new_tree_is_shaped(root: usize, value: u64)
    ensures
        shaped(
            map![root => Seq::<usize>::empty()],
            map![root => value].dom(),
            root,
        ),
{
    let children = map![root => Seq::<usize>::empty()];
    assert(children.dom() =~= map![root => value].dom());
    assert forall|p: usize| #[trigger] children.contains_key(p) implies !children[p].contains(root) by {
        assert(children[p] =~= Seq::<usize>::empty());
    }
}

/// Adding a node, as `add_node` does, keeps a tree shaped: the new node has
/// exactly one parent, and nothing else changes place.
pub proof fn law_add_keeps_shape(
    children: Map<usize, Seq<usize>>,
    values: Map<usize, u64>,
    root: usize,
    parent: usize,
    id: usize,
    value: u64,
)
    requires
        shaped(children, values.dom(), root),
        values.contains_key(parent),
        !values.contains_key(id),
    ensures
        shaped(
            children.insert(parent, children[parent].push(id)).insert(id, Seq::<usize>::empty()),
            values.insert(id, value).dom(),
            root,
        ),
{
    let c2 = children.insert(parent, children[parent].push(id)).insert(id, Seq::<usize>::empty());
    let live2 = values.insert(id, value).dom();
    assert(c2.dom() =~= live2);
    assert(id != root);
    assert(id != parent);
    assert forall|p: usize, i: int|
        #![trigger c2[p][i]]
        c2.contains_key(p) && 0 <= i < c2[p].len() implies live2.contains(c2[p][i]) by {
        if p == parent && i < children[parent].len() {
            assert(c2[p][i] == children[p][i]);
        }
    }
    assert forall|p: usize| #[trigger] c2.contains_key(p) implies c2[p].no_duplicates() by {
        if p == parent {
            assert(!children[parent].contains(id)) by {
                if children[parent].contains(id) {
                    let i = choose|i: int| 0 <= i < children[parent].len() && children[parent][i] == id;
                    assert(values.dom().contains(children[parent][i]));
                }
            }
            assert forall|i: int, j: int|
                0 <= i < c2[p].len() && 0 <= j < c2[p].len() && i != j implies c2[p][i] != c2[p][j] by {
                if i < children[parent].len() && j < children[parent].len() {
                } else if i < children[parent].len() {
                    assert(children[parent][i] == c2[p][i]);
                } else if j < children[parent].len() {
                    assert(children[parent][j] == c2[p][j]);
                }
            }
        } else if p == id {
        }
    }
    assert forall|p: usize| #[trigger] c2.contains_key(p) implies !c2[p].contains(root) by {
        if p == parent {
            if c2[p].contains(root) {
                let i = choose|i: int| 0 <= i < c2[p].len() && c2[p][i] == root;
                if i < children[parent].len() {
                    assert(children[parent][i] == root);
                }
            }
        } else if p == id {
            assert(c2[p] =~= Seq::<usize>::empty());
        }
    }
    assert forall|c: usize|
        #![trigger live2.contains(c)]
        live2.contains(c) && c != root implies exists|p: usize|
            c2.contains_key(p) && #[trigger] c2[p].contains(c) by {
        if c == id {
            assert(c2[parent][children[parent].len() as int] == id);
            assert(c2[parent].contains(c));
        } else {
            assert(values.dom().contains(c));
            let p = choose|p: usize| children.contains_key(p) && #[trigger] children[p].contains(c);
            let i = choose|i: int| 0 <= i < children[p].len() && children[p][i] == c;
            assert(p != id);
            if p == parent {
                assert(c2[p][i] == c);
            }
            assert(c2[p].contains(c));
        }
    }
    assert forall|c: usize, p1: usize, p2: usize|
        #![trigger c2[p1].contains(c), c2[p2].contains(c)]
        c2.contains_key(p1) && c2.contains_key(p2) && c2[p1].contains(c) && c2[p2].contains(c)
            implies p1 == p2 by {
        lemma_listed_before_add(children, values, parent, id, p1, c);
        lemma_listed_before_add(children, values, parent, id, p2, c);
    }
}

/// Where an id is listed after an addition: in the list it was in before, or,
/// for the new node, in its parent's list only.
proof fn lemma_listed_before_add(
    children: Map<usize, Seq<usize>>,
    values: Map<usize, u64>,
    parent: usize,
    id: usize,
    p: usize,
    c: usize,
)
    requires
        children.dom() == values.dom(),
        forall|q: usize, i: int|
            #![trigger children[q][i]]
            children.contains_key(q) && 0 <= i < children[q].len() ==> values.dom().contains(
                children[q][i],
            ),
        values.contains_key(parent),
        !values.contains_key(id),
        ({
            let c2 = children.insert(parent, children[parent].push(id)).insert(
                id,
                Seq::<usize>::empty(),
            );
            c2.contains_key(p) && c2[p].contains(c)
        }),
    ensures
        c == id ==> p == parent,
        c != id ==> children.contains_key(p) && children[p].contains(c),
{
    let c2 = children.insert(parent, children[parent].push(id)).insert(id, Seq::<usize>::empty());
    let i = choose|i: int| 0 <= i < c2[p].len() && c2[p][i] == c;
    if p == id {
        assert(c2[p] =~= Seq::<usize>::empty());
    } else if p == parent {
        if i < children[parent].len() {
            assert(children[p][i] == c);
            assert(values.dom().contains(children[p][i]));
        }
    } else {
        assert(children[p][i] == c);
        assert(values.dom().contains(children[p][i]));
    }
}

/// In a well-formed tree, the live nodes are exactly those with a list of children.
pub proof fn law_live_nodes_have_child_lists(t: Tree)
    requires
        t.wf(),
    ensures
        t.children().dom() == t.values().dom(),
{
    assert(t.children().dom() =~= t.values().dom());
}

} // verus!
