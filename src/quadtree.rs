use vstd::prelude::*;
use crate::rectangle::Rectangle;
use crate::vector::Vec2;

verus! {

/// A particle index stored in the tree, with the position it was indexed at.
#[derive(Clone, Copy, Debug, PartialEq, Eq, Structural)]
pub struct QuadEntry {
    pub index: usize,
    pub position: Vec2,
}

/// Quadrant `q` of `r` (0: north-west, 1: north-east, 2: south-west, 3: south-east).
/// The western and northern halves take the rounded-down half of the extent.
pub open spec fn quadrant(r: Rectangle, q: int) -> Rectangle {
    let hw = r.width / 2;
    let hh = r.height / 2;
    let west = q == 0 || q == 2;
    let north = q == 0 || q == 1;
    Rectangle {
        position: Vec2 {
            x: (if west { r.position.x as int } else { r.position.x + hw }) as i64,
            y: (if north { r.position.y as int } else { r.position.y + hh }) as i64,
        },
        width: (if west { hw } else { r.width - hw }) as i64,
        height: (if north { hh } else { r.height - hh }) as i64,
    }
}

/// Each quadrant of a well-formed rectangle is well formed and lies inside it,
/// and together the four cover it.
pub proof fn lemma_quadrants(r: Rectangle, p: Vec2)
    requires
        r.wf(),
    ensures
        forall|q: int| 0 <= q < 4 ==> (#[trigger] quadrant(r, q)).wf(),
        forall|q: int| 0 <= q < 4 && (#[trigger] quadrant(r, q)).contains_spec(p) ==> r.contains_spec(p),
        r.contains_spec(p) ==> quadrant(r, 0).contains_spec(p) || quadrant(r, 1).contains_spec(p)
            || quadrant(r, 2).contains_spec(p) || quadrant(r, 3).contains_spec(p),
{
}

/// The indices of the entries of `entries` whose position lies in `range`.
pub open spec fn hits(entries: Set<QuadEntry>, range: Rectangle) -> Set<usize> {
    Set::new(|i: usize| exists|e: QuadEntry| #[trigger] entries.contains(e) && e.index == i && range.contains_spec(e.position))
}

/// Entries of `content[0..j]` whose position lies in `r`.
pub open spec fn prefix_in(content: Seq<QuadEntry>, j: int, r: Rectangle) -> Set<QuadEntry>
    decreases j,
{
    if j <= 0 {
        Set::empty()
    } else if r.contains_spec(content[j - 1].position) {
        prefix_in(content, j - 1, r).insert(content[j - 1])
    } else {
        prefix_in(content, j - 1, r)
    }
}

/// A region quadtree over particle indices. A node is a leaf (no children) or
/// is split into four children that partition its bounds, and then holds no content.
pub struct QuadTree {
    pub bounds: Rectangle,
    pub content: Vec<QuadEntry>,
    pub north_west: Option<Box<QuadTree>>,
    pub north_east: Option<Box<QuadTree>>,
    pub south_west: Option<Box<QuadTree>>,
    pub south_east: Option<Box<QuadTree>>,
    pub limit: usize,
    pub depth: usize,
    pub max_depth: usize,
}

/// Entries held in an optional child.
pub open spec fn slot_entries(slot: Option<Box<QuadTree>>) -> Set<QuadEntry>
    decreases slot,
{
    match slot {
        Some(c) => c.entries(),
        None => Set::empty(),
    }
}

/// An optional child, if present, is a well-formed quadrant `q` of `parent`.
pub open spec fn slot_wf(slot: Option<Box<QuadTree>>, parent: QuadTree, q: int) -> bool
    decreases slot,
{
    match slot {
        Some(c) => c.fits_under(parent, q) && c.wf(),
        None => true,
    }
}

/// `entries` with `e` added when its position lies in `r`.
pub open spec fn grown(entries: Set<QuadEntry>, r: Rectangle, e: QuadEntry) -> Set<QuadEntry> {
    if r.contains_spec(e.position) {
        entries.insert(e)
    } else {
        entries
    }
}

/// `s` with `e` appended when its position lies in `r`.
pub open spec fn grow_seq(s: Seq<QuadEntry>, r: Rectangle, e: QuadEntry) -> Seq<QuadEntry> {
    if r.contains_spec(e.position) {
        s.push(e)
    } else {
        s
    }
}

/// The entries of `s` whose position lies in `r`, in order.
pub open spec fn within(s: Seq<QuadEntry>, r: Rectangle) -> Seq<QuadEntry> {
    s.filter(|e: QuadEntry| r.contains_spec(e.position))
}

/// Filtering a sequence with one more entry.
pub proof fn lemma_within_push(s: Seq<QuadEntry>, e: QuadEntry, r: Rectangle)
    ensures
        within(s.push(e), r) == (if r.contains_spec(e.position) { within(s, r).push(e) } else { within(s, r) }),
{
    s.lemma_filter_push(e, |x: QuadEntry| r.contains_spec(x.position));
}

/// The layout of the tree that `t`'s node builds from an empty leaf by receiving
/// the entries `s` in order: once it has received at least `limit` entries (and
/// at least one) above `max_depth`, it is split, holds nothing itself, and each
/// child is laid out by the received entries inside its quadrant; otherwise it
/// is a leaf holding exactly `s`.
pub open spec fn laid_out(t: QuadTree, s: Seq<QuadEntry>) -> bool
    decreases t,
{
    if s.len() > 0 && s.len() >= t.limit && t.depth < t.max_depth {
        &&& t.is_split()
        &&& t.content@.len() == 0
        &&& slot_laid_out(t.north_west, t, 0, s)
        &&& slot_laid_out(t.north_east, t, 1, s)
        &&& slot_laid_out(t.south_west, t, 2, s)
        &&& slot_laid_out(t.south_east, t, 3, s)
    } else {
        t.is_leaf() && t.content@ == s
    }
}

/// The child in `slot` is laid out by the entries of `s` inside quadrant `q` of `parent`.
pub open spec fn slot_laid_out(slot: Option<Box<QuadTree>>, parent: QuadTree, q: int, s: Seq<QuadEntry>) -> bool
    decreases slot,
{
    match slot {
        Some(c) => laid_out(*c, within(s, quadrant(parent.bounds, q))),
        None => false,
    }
}

/// Every leaf whose bounds hold `e`'s position holds `e`.
pub open spec fn held_by_covering_leaves(t: QuadTree, e: QuadEntry) -> bool
    decreases t,
{
    if t.is_leaf() {
        t.content@.contains(e)
    } else {
        &&& slot_holds(t.north_west, e)
        &&& slot_holds(t.north_east, e)
        &&& slot_holds(t.south_west, e)
        &&& slot_holds(t.south_east, e)
    }
}

/// The child in `slot`, if it covers `e`'s position, holds `e` in every covering leaf.
pub open spec fn slot_holds(slot: Option<Box<QuadTree>>, e: QuadEntry) -> bool
    decreases slot,
{
    match slot {
        Some(c) => c.bounds.contains_spec(e.position) ==> held_by_covering_leaves(*c, e),
        None => true,
    }
}

/// In a tree laid out by `s`, every received entry is held by every leaf
/// whose bounds contain its position: replication into each covering
/// quadrant loses nothing.
pub proof fn lemma_covering_leaves_hold(t: QuadTree, s: Seq<QuadEntry>, e: QuadEntry)
    requires
        t.wf(),
        laid_out(t, s),
        s.contains(e),
    ensures
        held_by_covering_leaves(t, e),
    decreases t,
{
    if !(s.len() > 0 && s.len() >= t.limit && t.depth < t.max_depth) {
    } else {
        lemma_slot_covering(t.north_west, t, 0, s, e);
        lemma_slot_covering(t.north_east, t, 1, s, e);
        lemma_slot_covering(t.south_west, t, 2, s, e);
        lemma_slot_covering(t.south_east, t, 3, s, e);
    }
}

proof fn lemma_slot_covering(slot: Option<Box<QuadTree>>, parent: QuadTree, q: int, s: Seq<QuadEntry>, e: QuadEntry)
    requires
        slot_wf(slot, parent, q),
        slot_laid_out(slot, parent, q, s),
        s.contains(e),
    ensures
        slot_holds(slot, e),
    decreases slot,
{
    if let Some(c) = slot {
        if c.bounds.contains_spec(e.position) {
            let r = quadrant(parent.bounds, q);
            let j = choose|j: int| 0 <= j < s.len() && s[j] == e;
            s.filter_lemma(|x: QuadEntry| r.contains_spec(x.position));
            s.lemma_filter_contains(|x: QuadEntry| r.contains_spec(x.position), j);
            lemma_covering_leaves_hold(*c, within(s, r), e);
        }
    }
}

impl QuadTree {
    /// No children.
    pub open spec fn is_leaf(self) -> bool {
        &&& self.north_west.is_none()
        &&& self.north_east.is_none()
        &&& self.south_west.is_none()
        &&& self.south_east.is_none()
    }

    /// All four children.
    pub open spec fn is_split(self) -> bool {
        &&& self.north_west.is_some()
        &&& self.north_east.is_some()
        &&& self.south_west.is_some()
        &&& self.south_east.is_some()
    }

    /// How many more levels may still be created below this node.
    pub open spec fn budget(self) -> nat {
        if self.depth < self.max_depth {
            (self.max_depth - self.depth) as nat
        } else {
            0
        }
    }

    /// This node is child `q` of `parent`: its quadrant, one level deeper, same parameters.
    pub open spec fn fits_under(self, parent: QuadTree, q: int) -> bool {
        &&& self.bounds == quadrant(parent.bounds, q)
        &&& self.limit == parent.limit
        &&& self.depth == parent.depth + 1
        &&& self.max_depth == parent.max_depth
    }

    /// Every entry stored in the subtree.
    pub open spec fn entries(self) -> Set<QuadEntry>
        decreases self,
    {
        self.content@.to_set() + slot_entries(self.north_west) + slot_entries(self.north_east)
            + slot_entries(self.south_west) + slot_entries(self.south_east)
    }

    /// Bounds well formed, content inside them, and either a leaf or a split
    /// node with no content below `max_depth` whose children fit their quadrants.
    pub open spec fn wf(self) -> bool
        decreases self,
    {
        &&& self.bounds.wf()
        &&& forall|j: int| 0 <= j < self.content.len() ==> self.bounds.contains_spec(#[trigger] self.content@[j].position)
        &&& self.is_leaf() || (self.is_split() && self.content.len() == 0 && self.depth < self.max_depth)
        &&& slot_wf(self.north_west, self, 0)
        &&& slot_wf(self.north_east, self, 1)
        &&& slot_wf(self.south_west, self, 2)
        &&& slot_wf(self.south_east, self, 3)
    }

    /// An empty leaf covering `bounds`.
    pub fn new(bounds: Rectangle, limit: usize, depth: usize, max_depth: usize) -> (r: QuadTree)
        ensures
            r.bounds == bounds,
            r.limit == limit,
            r.depth == depth,
            r.max_depth == max_depth,
            r.is_leaf(),
            r.content@ == Seq::<QuadEntry>::empty(),
            r.entries() == Set::<QuadEntry>::empty(),
            laid_out(r, Seq::empty()),
            bounds.wf() ==> r.wf(),
    {
        let r = QuadTree {
            bounds,
            content: Vec::new(),
            north_west: None,
            north_east: None,
            south_west: None,
            south_east: None,
            limit,
            depth,
            max_depth,
        };
        proof {
            assert(r.content@.to_set() =~= Set::empty());
            assert(r.entries() =~= Set::empty());
        }
        r
    }
}

/// Every entry of a well-formed subtree lies inside its bounds.
pub proof fn lemma_entries_within(t: QuadTree)
    requires
        t.wf(),
    ensures
        forall|e: QuadEntry| #[trigger] t.entries().contains(e) ==> t.bounds.contains_spec(e.position),
    decreases t,
{
    lemma_slot_within(t.north_west, t, 0);
    lemma_slot_within(t.north_east, t, 1);
    lemma_slot_within(t.south_west, t, 2);
    lemma_slot_within(t.south_east, t, 3);
    assert forall|e: QuadEntry| #[trigger] t.entries().contains(e) implies t.bounds.contains_spec(e.position) by {
        if t.content@.to_set().contains(e) {
            assert(t.content@.contains(e));
            let j = choose|j: int| 0 <= j < t.content@.len() && t.content@[j] == e;
            assert(t.bounds.contains_spec(t.content@[j].position));
        } else if slot_entries(t.north_west).contains(e) {
        } else if slot_entries(t.north_east).contains(e) {
        } else if slot_entries(t.south_west).contains(e) {
        } else {
            assert(slot_entries(t.south_east).contains(e));
        }
    }
}

proof fn lemma_slot_within(slot: Option<Box<QuadTree>>, parent: QuadTree, q: int)
    requires
        slot_wf(slot, parent, q),
        parent.bounds.wf(),
        0 <= q < 4,
    ensures
        forall|e: QuadEntry| #[trigger] slot_entries(slot).contains(e) ==> parent.bounds.contains_spec(e.position),
    decreases slot,
{
    if let Some(c) = slot {
        lemma_entries_within(*c);
        assert(c.bounds == quadrant(parent.bounds, q));
        assert forall|e: QuadEntry| #[trigger] slot_entries(slot).contains(e) implies parent.bounds.contains_spec(e.position) by {
            assert(c.entries().contains(e));
            assert(c.bounds.contains_spec(e.position));
            lemma_quadrants(parent.bounds, e.position);
        }
    }
}

fn quadrant_of(r: &Rectangle, q: u8) -> (out: Rectangle)
    requires
        r.wf(),
        q < 4,
    ensures
        out == quadrant(*r, q as int),
{
    let hw = r.width / 2;
    let hh = r.height / 2;
    let west = q == 0 || q == 2;
    let north = q == 0 || q == 1;
    Rectangle {
        position: Vec2 {
            x: if west { r.position.x } else { r.position.x + hw },
            y: if north { r.position.y } else { r.position.y + hh },
        },
        width: if west { hw } else { r.width - hw },
        height: if north { hh } else { r.height - hh },
    }
}

/// Inserting into the child held in `slot`.
fn insert_into_slot(slot: &mut Option<Box<QuadTree>>, index: usize, position: Vec2)
    requires
        old(slot).is_some(),
        old(slot).unwrap().wf(),
    ensures
        final(slot).is_some(),
        final(slot).unwrap().wf(),
        final(slot).unwrap().bounds == old(slot).unwrap().bounds,
        final(slot).unwrap().limit == old(slot).unwrap().limit,
        final(slot).unwrap().depth == old(slot).unwrap().depth,
        final(slot).unwrap().max_depth == old(slot).unwrap().max_depth,
        slot_entries(*final(slot)) == (if old(slot).unwrap().bounds.contains_spec(position) {
            slot_entries(*old(slot)).insert(QuadEntry { index, position })
        } else {
            slot_entries(*old(slot))
        }),
        forall|s: Seq<QuadEntry>| #[trigger] laid_out(*old(slot).unwrap(), s) ==> laid_out(
            *final(slot).unwrap(),
            grow_seq(s, old(slot).unwrap().bounds, QuadEntry { index, position }),
        ),
    decreases old(slot).unwrap().budget(), 2nat,
{
    let mut c = slot.take().unwrap();
    c.insert(index, position);
    *slot = Some(c);
}

impl QuadTree {
    /// Adds `index` at `position`: ignored when the point lies outside the
    /// bounds, handed to every child of a split node (each keeps it only if
    /// the point lies in its quadrant), else stored here, splitting the leaf
    /// once it holds `limit` entries and is above `max_depth`.
    pub fn insert(&mut self, index: usize, position: Vec2)
        requires
            old(self).wf(),
        ensures
            final(self).wf(),
            final(self).bounds == old(self).bounds,
            final(self).limit == old(self).limit,
            final(self).depth == old(self).depth,
            final(self).max_depth == old(self).max_depth,
            final(self).entries() == (if old(self).bounds.contains_spec(position) {
                old(self).entries().insert(QuadEntry { index, position })
            } else {
                old(self).entries()
            }),
            !old(self).bounds.contains_spec(position) ==> *final(self) == *old(self),
            old(self).is_split() ==> final(self).is_split(),
            old(self).is_leaf() && old(self).bounds.contains_spec(position) ==> {
                if old(self).content.len() + 1 >= old(self).limit && old(self).depth < old(self).max_depth {
                    final(self).is_split()
                } else {
                    final(self).is_leaf() && final(self).content@ == old(self).content@.push(QuadEntry { index, position })
                }
            },
            old(self).is_split() ==> {
                &&& slot_entries(final(self).north_west) == grown(slot_entries(old(self).north_west), quadrant(old(self).bounds, 0), QuadEntry { index, position })
                &&& slot_entries(final(self).north_east) == grown(slot_entries(old(self).north_east), quadrant(old(self).bounds, 1), QuadEntry { index, position })
                &&& slot_entries(final(self).south_west) == grown(slot_entries(old(self).south_west), quadrant(old(self).bounds, 2), QuadEntry { index, position })
                &&& slot_entries(final(self).south_east) == grown(slot_entries(old(self).south_east), quadrant(old(self).bounds, 3), QuadEntry { index, position })
            },
            forall|s: Seq<QuadEntry>| #[trigger] laid_out(*old(self), s) ==> laid_out(
                *final(self),
                grow_seq(s, old(self).bounds, QuadEntry { index, position }),
            ),
        decreases old(self).budget(), 1nat,
    {
        if !self.bounds.contains(position) {
            return;
        }
        let e = QuadEntry { index, position };
        let ghost pre = *self;
        if self.north_west.is_some() {
            proof {
                lemma_quadrants(self.bounds, position);
            }
            let ghost c0 = *pre.north_west.unwrap();
            let ghost c1 = *pre.north_east.unwrap();
            let ghost c2 = *pre.south_west.unwrap();
            let ghost c3 = *pre.south_east.unwrap();
            insert_into_slot(&mut self.north_west, index, position);
            insert_into_slot(&mut self.north_east, index, position);
            insert_into_slot(&mut self.south_west, index, position);
            insert_into_slot(&mut self.south_east, index, position);
            proof {
                assert forall|s: Seq<QuadEntry>| laid_out(c0, s) implies #[trigger] laid_out(*self.north_west.unwrap(), grow_seq(s, c0.bounds, e)) by {}
                assert forall|s: Seq<QuadEntry>| laid_out(c1, s) implies #[trigger] laid_out(*self.north_east.unwrap(), grow_seq(s, c1.bounds, e)) by {}
                assert forall|s: Seq<QuadEntry>| laid_out(c2, s) implies #[trigger] laid_out(*self.south_west.unwrap(), grow_seq(s, c2.bounds, e)) by {}
                assert forall|s: Seq<QuadEntry>| laid_out(c3, s) implies #[trigger] laid_out(*self.south_east.unwrap(), grow_seq(s, c3.bounds, e)) by {}
            }
            proof {
                assert(slot_wf(self.north_west, *self, 0));
                assert(slot_wf(self.north_east, *self, 1));
                assert(slot_wf(self.south_west, *self, 2));
                assert(slot_wf(self.south_east, *self, 3));
                assert(self.entries() =~= pre.entries().insert(e));
                assert forall|s: Seq<QuadEntry>| #[trigger] laid_out(pre, s) implies laid_out(*self, s.push(e)) by {
                    lemma_within_push(s, e, quadrant(pre.bounds, 0));
                    lemma_within_push(s, e, quadrant(pre.bounds, 1));
                    lemma_within_push(s, e, quadrant(pre.bounds, 2));
                    lemma_within_push(s, e, quadrant(pre.bounds, 3));
                    assert(slot_laid_out(pre.north_west, pre, 0, s));
                    assert(slot_laid_out(pre.north_east, pre, 1, s));
                    assert(slot_laid_out(pre.south_west, pre, 2, s));
                    assert(slot_laid_out(pre.south_east, pre, 3, s));
                    assert(laid_out(c0, within(s, quadrant(pre.bounds, 0))));
                    assert(laid_out(*self.north_west.unwrap(), grow_seq(within(s, quadrant(pre.bounds, 0)), c0.bounds, e)));
                    assert(laid_out(c1, within(s, quadrant(pre.bounds, 1))));
                    assert(laid_out(*self.north_east.unwrap(), grow_seq(within(s, quadrant(pre.bounds, 1)), c1.bounds, e)));
                    assert(laid_out(c2, within(s, quadrant(pre.bounds, 2))));
                    assert(laid_out(*self.south_west.unwrap(), grow_seq(within(s, quadrant(pre.bounds, 2)), c2.bounds, e)));
                    assert(laid_out(c3, within(s, quadrant(pre.bounds, 3))));
                    assert(laid_out(*self.south_east.unwrap(), grow_seq(within(s, quadrant(pre.bounds, 3)), c3.bounds, e)));
                    assert(slot_laid_out(self.north_west, *self, 0, s.push(e)));
                    assert(slot_laid_out(self.north_east, *self, 1, s.push(e)));
                    assert(slot_laid_out(self.south_west, *self, 2, s.push(e)));
                    assert(slot_laid_out(self.south_east, *self, 3, s.push(e)));
                }
            }
        } else {
            self.content.push(e);
            proof {
                assert(self.content@ == pre.content@.push(e));
                pre.content@.lemma_push_to_set_commute(e);
                assert(self.entries() =~= pre.entries().insert(e));
                assert(slot_wf(self.north_west, *self, 0));
                assert(slot_wf(self.north_east, *self, 1));
                assert(slot_wf(self.south_west, *self, 2));
                assert(slot_wf(self.south_east, *self, 3));
                assert(self.wf());
            }
            if self.content.len() >= self.limit && self.depth < self.max_depth {
                self.split();
            }
            proof {
                assert forall|s: Seq<QuadEntry>| #[trigger] laid_out(pre, s) implies laid_out(*self, s.push(e)) by {
                    assert(pre.content@ == s);
                }
            }
        }
    }

    /// Turns a leaf into a split node: four children over the quadrants of the
    /// bounds receive the held entries, and the node's own content is cleared.
    fn split(&mut self)
        requires
            old(self).wf(),
            old(self).is_leaf(),
            old(self).depth < old(self).max_depth,
        ensures
            final(self).wf(),
            final(self).is_split(),
            final(self).bounds == old(self).bounds,
            final(self).limit == old(self).limit,
            final(self).depth == old(self).depth,
            final(self).max_depth == old(self).max_depth,
            final(self).entries() == old(self).entries(),
            final(self).content@.len() == 0,
            slot_laid_out(final(self).north_west, *final(self), 0, old(self).content@),
            slot_laid_out(final(self).north_east, *final(self), 1, old(self).content@),
            slot_laid_out(final(self).south_west, *final(self), 2, old(self).content@),
            slot_laid_out(final(self).south_east, *final(self), 3, old(self).content@),
            slot_entries(final(self).north_west) == within(old(self).content@, quadrant(old(self).bounds, 0)).to_set(),
            slot_entries(final(self).north_east) == within(old(self).content@, quadrant(old(self).bounds, 1)).to_set(),
            slot_entries(final(self).south_west) == within(old(self).content@, quadrant(old(self).bounds, 2)).to_set(),
            slot_entries(final(self).south_east) == within(old(self).content@, quadrant(old(self).bounds, 3)).to_set(),
        decreases old(self).budget(), 0nat,
    {
        let ghost pre = *self;
        let b = self.bounds;
        let mut nw = QuadTree::new(quadrant_of(&b, 0), self.limit, self.depth + 1, self.max_depth);
        let mut ne = QuadTree::new(quadrant_of(&b, 1), self.limit, self.depth + 1, self.max_depth);
        let mut sw = QuadTree::new(quadrant_of(&b, 2), self.limit, self.depth + 1, self.max_depth);
        let mut se = QuadTree::new(quadrant_of(&b, 3), self.limit, self.depth + 1, self.max_depth);
        proof {
            lemma_quadrants(b, b.position);
            assert(pre.content@.take(0) =~= Seq::<QuadEntry>::empty());
            Seq::<QuadEntry>::empty().filter_lemma(|x: QuadEntry| quadrant(b, 0).contains_spec(x.position));
            Seq::<QuadEntry>::empty().filter_lemma(|x: QuadEntry| quadrant(b, 1).contains_spec(x.position));
            Seq::<QuadEntry>::empty().filter_lemma(|x: QuadEntry| quadrant(b, 2).contains_spec(x.position));
            Seq::<QuadEntry>::empty().filter_lemma(|x: QuadEntry| quadrant(b, 3).contains_spec(x.position));
            assert(within(pre.content@.take(0), quadrant(b, 0)) =~= Seq::<QuadEntry>::empty());
            assert(within(pre.content@.take(0), quadrant(b, 1)) =~= Seq::<QuadEntry>::empty());
            assert(within(pre.content@.take(0), quadrant(b, 2)) =~= Seq::<QuadEntry>::empty());
            assert(within(pre.content@.take(0), quadrant(b, 3)) =~= Seq::<QuadEntry>::empty());
        }
        let mut j: usize = 0;
        while j < self.content.len()
            invariant
                *self == pre,
                pre == *old(self),
                pre.depth < pre.max_depth,
                b == pre.bounds,
                j <= self.content.len(),
                nw.wf() && nw.fits_under(pre, 0),
                ne.wf() && ne.fits_under(pre, 1),
                sw.wf() && sw.fits_under(pre, 2),
                se.wf() && se.fits_under(pre, 3),
                nw.entries() == prefix_in(pre.content@, j as int, quadrant(b, 0)),
                ne.entries() == prefix_in(pre.content@, j as int, quadrant(b, 1)),
                sw.entries() == prefix_in(pre.content@, j as int, quadrant(b, 2)),
                se.entries() == prefix_in(pre.content@, j as int, quadrant(b, 3)),
                laid_out(nw, within(pre.content@.take(j as int), quadrant(b, 0))),
                laid_out(ne, within(pre.content@.take(j as int), quadrant(b, 1))),
                laid_out(sw, within(pre.content@.take(j as int), quadrant(b, 2))),
                laid_out(se, within(pre.content@.take(j as int), quadrant(b, 3))),
            decreases self.content.len() - j,
        {
            let e = self.content[j];
            proof {
                assert(pre.content@.take(j + 1) =~= pre.content@.take(j as int).push(e));
                lemma_within_push(pre.content@.take(j as int), e, quadrant(b, 0));
                lemma_within_push(pre.content@.take(j as int), e, quadrant(b, 1));
                lemma_within_push(pre.content@.take(j as int), e, quadrant(b, 2));
                lemma_within_push(pre.content@.take(j as int), e, quadrant(b, 3));
            }
            nw.insert(e.index, e.position);
            ne.insert(e.index, e.position);
            sw.insert(e.index, e.position);
            se.insert(e.index, e.position);
            j += 1;
        }
        proof {
            lemma_prefix_cover(pre.content@, pre.content@.len() as int, b);
            assert(pre.content@.take(pre.content@.len() as int) =~= pre.content@);
            lemma_prefix_within(pre.content@, pre.content@.len() as int, quadrant(b, 0));
            lemma_prefix_within(pre.content@, pre.content@.len() as int, quadrant(b, 1));
            lemma_prefix_within(pre.content@, pre.content@.len() as int, quadrant(b, 2));
            lemma_prefix_within(pre.content@, pre.content@.len() as int, quadrant(b, 3));
        }
        self.content = Vec::new();
        self.north_west = Some(Box::new(nw));
        self.north_east = Some(Box::new(ne));
        self.south_west = Some(Box::new(sw));
        self.south_east = Some(Box::new(se));
        proof {
            assert(self.content@.to_set() =~= Set::empty());
            assert(slot_wf(self.north_west, *self, 0));
            assert(slot_wf(self.north_east, *self, 1));
            assert(slot_wf(self.south_west, *self, 2));
            assert(slot_wf(self.south_east, *self, 3));
            assert(self.entries() =~= pre.entries());
        }
    }
}

/// The share of a prefix inside `r`, as a set, is its filtered prefix.
proof fn lemma_prefix_within(content: Seq<QuadEntry>, j: int, r: Rectangle)
    requires
        0 <= j <= content.len(),
    ensures
        prefix_in(content, j, r) == within(content.take(j), r).to_set(),
    decreases j,
{
    if j == 0 {
        assert(content.take(0) =~= Seq::<QuadEntry>::empty());
        Seq::<QuadEntry>::empty().filter_lemma(|x: QuadEntry| r.contains_spec(x.position));
        assert(within(content.take(0), r) =~= Seq::<QuadEntry>::empty());
        assert(within(content.take(0), r).to_set() =~= Set::empty());
    } else {
        lemma_prefix_within(content, j - 1, r);
        let e = content[j - 1];
        assert(content.take(j) =~= content.take(j - 1).push(e));
        lemma_within_push(content.take(j - 1), e, r);
        within(content.take(j - 1), r).lemma_push_to_set_commute(e);
    }
}

/// Over a prefix of entries that all lie in `b`, the four quadrants' shares
/// together are exactly the prefix's entries.
proof fn lemma_prefix_cover(content: Seq<QuadEntry>, j: int, b: Rectangle)
    requires
        b.wf(),
        0 <= j <= content.len(),
        forall|m: int| 0 <= m < content.len() ==> b.contains_spec(#[trigger] content[m].position),
    ensures
        prefix_in(content, j, quadrant(b, 0)) + prefix_in(content, j, quadrant(b, 1)) + prefix_in(content, j, quadrant(b, 2))
            + prefix_in(content, j, quadrant(b, 3)) == content.take(j).to_set(),
    decreases j,
{
    if j == 0 {
        assert(content.take(0).to_set() =~= Set::empty());
        assert(prefix_in(content, 0, quadrant(b, 0)) + prefix_in(content, 0, quadrant(b, 1)) + prefix_in(content, 0, quadrant(b, 2))
            + prefix_in(content, 0, quadrant(b, 3)) =~= Set::empty());
    } else {
        lemma_prefix_cover(content, j - 1, b);
        let e = content[j - 1];
        lemma_quadrants(b, e.position);
        assert(content.take(j) =~= content.take(j - 1).push(e));
        content.take(j - 1).lemma_push_to_set_commute(e);
        assert(prefix_in(content, j, quadrant(b, 0)) + prefix_in(content, j, quadrant(b, 1)) + prefix_in(content, j, quadrant(b, 2))
            + prefix_in(content, j, quadrant(b, 3)) =~= content.take(j).to_set());
    }
}

/// A sequence of the concatenation holds exactly what either part holds.
proof fn lemma_concat_contains(a: Seq<usize>, b: Seq<usize>, x: usize)
    ensures
        (a + b).contains(x) <==> (a.contains(x) || b.contains(x)),
{
    if (a + b).contains(x) {
        let j = choose|j: int| 0 <= j < (a + b).len() && (a + b)[j] == x;
        if j < a.len() {
            assert(a[j] == x);
        } else {
            assert(b[j - a.len()] == x);
        }
    }
    if a.contains(x) {
        let j = choose|j: int| 0 <= j < a.len() && a[j] == x;
        assert((a + b)[j] == x);
    }
    if b.contains(x) {
        let j = choose|j: int| 0 <= j < b.len() && b[j] == x;
        assert((a + b)[a.len() + j] == x);
    }
}

/// Hits of a union are the union of the hits.
pub proof fn lemma_hits_union(a: Set<QuadEntry>, b: Set<QuadEntry>, range: Rectangle)
    ensures
        hits(a + b, range) == hits(a, range) + hits(b, range),
{
    assert forall|i: usize| hits(a + b, range).contains(i) <==> (hits(a, range) + hits(b, range)).contains(i) by {
        if hits(a + b, range).contains(i) {
            let e = choose|e: QuadEntry| #[trigger] (a + b).contains(e) && e.index == i && range.contains_spec(e.position);
            if a.contains(e) {
                assert(hits(a, range).contains(i));
            } else {
                assert(hits(b, range).contains(i));
            }
        }
        if hits(a, range).contains(i) {
            let e = choose|e: QuadEntry| #[trigger] a.contains(e) && e.index == i && range.contains_spec(e.position);
            assert((a + b).contains(e));
        }
        if hits(b, range).contains(i) {
            let e = choose|e: QuadEntry| #[trigger] b.contains(e) && e.index == i && range.contains_spec(e.position);
            assert((a + b).contains(e));
        }
    }
    assert(hits(a + b, range) =~= hits(a, range) + hits(b, range));
}

/// The indices of the entries of `c` whose position lies in `range`, in order.
pub open spec fn indices_within(c: Seq<QuadEntry>, range: Rectangle) -> Seq<usize> {
    within(c, range).map_values(|e: QuadEntry| e.index)
}

/// The answer of a query, in order: nothing if the node's bounds miss the
/// range; else the indices of the node's own entries inside the range,
/// followed by the answers of the north-west, north-east, south-west and
/// south-east children. An index appears once for each node that holds an
/// entry for it inside the range.
pub open spec fn query_seq(t: QuadTree, range: Rectangle) -> Seq<usize>
    decreases t,
{
    if !t.bounds.intersects_spec(range) {
        Seq::empty()
    } else {
        indices_within(t.content@, range) + slot_query(t.north_west, range) + slot_query(t.north_east, range)
            + slot_query(t.south_west, range) + slot_query(t.south_east, range)
    }
}

/// The query answer of an optional child.
pub open spec fn slot_query(slot: Option<Box<QuadTree>>, range: Rectangle) -> Seq<usize>
    decreases slot,
{
    match slot {
        Some(c) => query_seq(*c, range),
        None => Seq::empty(),
    }
}

/// Appends to `result` the query answer of the child held in `slot`.
fn query_slot(slot: &Option<Box<QuadTree>>, range: &Rectangle, result: &mut Vec<usize>)
    requires
        slot.is_some() ==> slot.unwrap().wf(),
    ensures
        forall|i: usize| final(result)@.contains(i) <==> (old(result)@.contains(i) || hits(slot_entries(*slot), *range).contains(i)),
        final(result)@ == old(result)@ + slot_query(*slot, *range),
    decreases *slot,
{
    match slot {
        Some(c) => {
            let mut sub = c.query(range);
            let ghost pre = result@;
            let ghost found = sub@;
            result.append(&mut sub);
            proof {
                assert forall|i: usize| result@.contains(i) <==> (pre.contains(i) || hits(slot_entries(*slot), *range).contains(i)) by {
                    lemma_concat_contains(pre, found, i);
                }
            }
        },
        None => {
            proof {
                assert(result@ + slot_query(*slot, *range) =~= result@);
                assert forall|i: usize| !hits(slot_entries(*slot), *range).contains(i) by {
                    assert(slot_entries(*slot) =~= Set::empty());
                }
            }
        },
    }
}

impl QuadTree {
    /// Indices of the stored entries whose position lies in `range`. Nodes whose
    /// bounds miss the range are skipped; an index stored in several nodes may
    /// be listed more than once.
    pub fn query(&self, range: &Rectangle) -> (r: Vec<usize>)
        requires
            self.wf(),
        ensures
            forall|i: usize| r@.contains(i) <==> hits(self.entries(), *range).contains(i),
            r@ == query_seq(*self, *range),
        decreases *self,
    {
        if !self.bounds.intersects(range) {
            proof {
                lemma_entries_within(*self);
                assert forall|i: usize| !hits(self.entries(), *range).contains(i) by {
                    if hits(self.entries(), *range).contains(i) {
                        let e = choose|e: QuadEntry| #[trigger] self.entries().contains(e) && e.index == i && range.contains_spec(e.position);
                        crate::rectangle::lemma_common_point_intersects(self.bounds, *range, e.position);
                    }
                }
            }
            return Vec::new();
        }
        let mut result: Vec<usize> = Vec::new();
        let mut j: usize = 0;
        while j < self.content.len()
            invariant
                j <= self.content.len(),
                forall|i: usize| result@.contains(i) <==> hits(self.content@.take(j as int).to_set(), *range).contains(i),
                result@ == indices_within(self.content@.take(j as int), *range),
            decreases self.content.len() - j,
        {
            let e = self.content[j];
            let ghost pre = result@;
            proof {
                lemma_within_push(self.content@.take(j as int), e, *range);
                assert(within(self.content@.take(j as int), *range).push(e).map_values(|x: QuadEntry| x.index)
                    =~= indices_within(self.content@.take(j as int), *range).push(e.index));
                assert(self.content@.take(j + 1) =~= self.content@.take(j as int).push(e));
                self.content@.take(j as int).lemma_push_to_set_commute(e);
                assert(self.content@.take(j as int).to_set().insert(e) =~= self.content@.take(j as int).to_set() + set![e]);
                lemma_hits_union(self.content@.take(j as int).to_set(), set![e], *range);
            }
            if range.contains(e.position) {
                result.push(e.index);
                proof {
                    assert forall|i: usize| result@.contains(i) <==> (pre.contains(i) || i == e.index) by {
                        if result@.contains(i) {
                            let m = choose|m: int| 0 <= m < result@.len() && result@[m] == i;
                            if m < pre.len() {
                                assert(pre[m] == i);
                            }
                        }
                        if pre.contains(i) {
                            let m = choose|m: int| 0 <= m < pre.len() && pre[m] == i;
                            assert(result@[m] == i);
                        }
                        if i == e.index {
                            assert(result@[pre.len() as int] == i);
                        }
                    }
                    assert(set![e].contains(e));
                    assert forall|i: usize| hits(set![e], *range).contains(i) <==> i == e.index by {
                        if hits(set![e], *range).contains(i) {
                            let x = choose|x: QuadEntry| #[trigger] set![e].contains(x) && x.index == i && range.contains_spec(x.position);
                        }
                    }
                }
            } else {
                proof {
                    assert forall|i: usize| !hits(set![e], *range).contains(i) by {
                        if hits(set![e], *range).contains(i) {
                            let x = choose|x: QuadEntry| #[trigger] set![e].contains(x) && x.index == i && range.contains_spec(x.position);
                        }
                    }
                }
            }
            proof {
                let a = self.content@.take(j as int).to_set();
                assert(self.content@.take(j + 1).to_set() == a + set![e]);
                assert forall|i: usize| result@.contains(i) <==> hits(self.content@.take(j + 1).to_set(), *range).contains(i) by {
                    assert(hits(a + set![e], *range).contains(i) == (hits(a, *range).contains(i) || hits(set![e], *range).contains(i)));
                    assert(pre.contains(i) == hits(a, *range).contains(i));
                    if range.contains_spec(e.position) {
                        assert(result@.contains(i) == (pre.contains(i) || i == e.index));
                        assert(hits(set![e], *range).contains(i) == (i == e.index));
                    } else {
                        assert(result@ == pre);
                        assert(!hits(set![e], *range).contains(i));
                    }
                }
            }
            j += 1;
        }
        proof {
            assert(self.content@.take(self.content@.len() as int) =~= self.content@);
        }
        let ghost own = result@;
        query_slot(&self.north_west, range, &mut result);
        query_slot(&self.north_east, range, &mut result);
        query_slot(&self.south_west, range, &mut result);
        query_slot(&self.south_east, range, &mut result);
        proof {
            let c = self.content@.to_set();
            let e1 = slot_entries(self.north_west);
            let e2 = slot_entries(self.north_east);
            let e3 = slot_entries(self.south_west);
            let e4 = slot_entries(self.south_east);
            lemma_hits_union(c, e1, *range);
            lemma_hits_union(c + e1, e2, *range);
            lemma_hits_union(c + e1 + e2, e3, *range);
            lemma_hits_union(c + e1 + e2 + e3, e4, *range);
        }
        result
    }
}

/// Entries for the first `n` positions, each under its index, kept where the
/// position lies in `bounds`.
pub open spec fn indexed_prefix(positions: Seq<Vec2>, n: int, bounds: Rectangle) -> Set<QuadEntry> {
    Set::new(
        |e: QuadEntry|
            e.index < n && e.index < positions.len() && positions[e.index as int] == e.position
                && bounds.contains_spec(e.position),
    )
}

/// Entries for all positions that lie in `bounds`, each under its index.
pub open spec fn indexed_entries(positions: Seq<Vec2>, bounds: Rectangle) -> Set<QuadEntry> {
    indexed_prefix(positions, positions.len() as int, bounds)
}

/// The indices whose position lies in `range`, found by checking every one.
pub open spec fn scan(positions: Seq<Vec2>, range: Rectangle) -> Set<usize> {
    Set::new(|i: usize| i < positions.len() && range.contains_spec(positions[i as int]))
}

/// A query on a tree holding every position finds exactly what a brute-force
/// scan finds among the positions inside the tree's bounds; when all positions
/// lie inside, exactly what a scan of all of them finds.
pub proof fn lemma_query_matches_scan(positions: Seq<Vec2>, bounds: Rectangle, range: Rectangle)
    ensures
        hits(indexed_entries(positions, bounds), range) == Set::new(
            |i: usize| i < positions.len() && bounds.contains_spec(positions[i as int]) && range.contains_spec(positions[i as int]),
        ),
        (forall|i: int| 0 <= i < positions.len() ==> bounds.contains_spec(#[trigger] positions[i]))
            ==> hits(indexed_entries(positions, bounds), range) == scan(positions, range),
{
    let found = hits(indexed_entries(positions, bounds), range);
    let inside = Set::new(
        |i: usize| i < positions.len() && bounds.contains_spec(positions[i as int]) && range.contains_spec(positions[i as int]),
    );
    assert forall|i: usize| found.contains(i) <==> inside.contains(i) by {
        if inside.contains(i) {
            let e = QuadEntry { index: i, position: positions[i as int] };
            assert(indexed_entries(positions, bounds).contains(e));
        }
    }
    assert(found =~= inside);
    if forall|i: int| 0 <= i < positions.len() ==> bounds.contains_spec(#[trigger] positions[i]) {
        assert(inside =~= scan(positions, range));
    }
}

/// A query on a tree holding every position never reports an index whose
/// position lies outside the range.
pub proof fn lemma_query_within_range(positions: Seq<Vec2>, bounds: Rectangle, range: Rectangle, i: usize)
    requires
        hits(indexed_entries(positions, bounds), range).contains(i),
    ensures
        i < positions.len(),
        range.contains_spec(positions[i as int]),
{
    lemma_query_matches_scan(positions, bounds, range);
}

} // verus!
