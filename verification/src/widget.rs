//! What a node renders, what is attached to it, and the description from
//! which a subtree is built.

use crate::arena::{NodeId, TreeArena};
use crate::dynamic_widget::DynRender;
use crate::key::KeyWidget;
use vstd::prelude::*;

verus! {

/// A size in whole logical pixels.
#[derive(Clone, Copy, Debug, PartialEq, Eq, Structural)]
pub struct Size {
    pub width: u32,
    pub height: u32,
}

impl Size {
    /// The size with this width and height.
    pub fn new(width: u32, height: u32) -> (r: Self)
        ensures
            r == (Size { width, height }),
    {
        Size { width, height }
    }

    /// No size.
    pub fn zero() -> (r: Self)
        ensures
            r == (Size { width: 0, height: 0 }),
    {
        Size { width: 0, height: 0 }
    }
}

/// The smallest and the largest size a node may take.
#[derive(Clone, Copy, Debug, PartialEq, Eq, Structural)]
pub struct BoxClamp {
    pub min: Size,
    pub max: Size,
}

/// `v` brought into `lo ..= hi`; where the bounds cross, the lower one wins.
pub open spec fn clamp_spec(v: u32, lo: u32, hi: u32) -> u32 {
    if v > hi && hi >= lo {
        hi
    } else if v < lo || hi < lo {
        lo
    } else {
        v
    }
}

impl BoxClamp {
    /// `size` brought within the clamp, each axis by itself.
    pub open spec fn clamp_of(self, size: Size) -> Size {
        Size {
            width: clamp_spec(size.width, self.min.width, self.max.width),
            height: clamp_spec(size.height, self.min.height, self.max.height),
        }
    }

    /// `size` brought within the clamp, each axis by itself.
    pub fn clamp(&self, size: Size) -> (r: Size)
        ensures
            r == self.clamp_of(size),
    {
        let w = if size.width > self.max.width && self.max.width >= self.min.width {
            self.max.width
        } else if size.width < self.min.width || self.max.width < self.min.width {
            self.min.width
        } else {
            size.width
        };
        let h = if size.height > self.max.height && self.max.height >= self.min.height {
            self.max.height
        } else if size.height < self.min.height || self.max.height < self.min.height {
            self.min.height
        } else {
            size.height
        };
        Size { width: w, height: h }
    }
}

/// A 2D affine transform. The library only carries it from the widget to
/// the painter: each coefficient is kept as the bit pattern of a 32-bit
/// IEEE 754 number.
#[derive(Clone, Copy, Debug, PartialEq, Eq, Structural)]
pub struct Transform {
    pub m11: u32,
    pub m12: u32,
    pub m21: u32,
    pub m22: u32,
    pub m31: u32,
    pub m32: u32,
}

/// A widget that paints its only child through a transform and takes the
/// size of that child.
#[derive(Clone, Copy, Debug, PartialEq, Eq, Structural)]
pub struct TransformWidget {
    pub transform: Transform,
}

impl TransformWidget {
    /// The widget that applies `transform`.
    pub fn new(transform: Transform) -> (r: Self)
        ensures
            r.transform == transform,
    {
        TransformWidget { transform }
    }
}

/// A marker that delays the drop of the widget it is attached to: when the
/// widget is removed from its dynamic parent while `delay_drop_until` is
/// false, it leaves the tree but is kept, laid out and painted, until the
/// field is set to true.
#[derive(Clone, Copy, Debug, PartialEq, Eq, Structural)]
pub struct DelayDrop {
    pub delay_drop_until: bool,
}

/// What a node renders.
#[derive(Clone, Copy, Debug, PartialEq, Eq, Structural)]
pub enum Render {
    /// Nothing: the placeholder of an empty dynamic position.
    Void,
    /// A box that asks for a size of its own.
    SizedBox(Size),
    /// A container of any number of children.
    Multi,
    /// A single-child wrapper that applies a transform.
    Transform(TransformWidget),
}

/// Data attached to a node, wrapped around what it renders.
#[derive(Clone, Copy, Debug, PartialEq, Eq, Structural)]
pub enum Attachment {
    Key(KeyWidget),
    DelayDrop(DelayDrop),
}

/// The payload of a node of the tree.
pub struct RenderNode {
    pub render: Render,
    /// The data attached to the node, outermost first.
    pub attachments: Vec<Attachment>,
    /// The dynamic position whose first output this node is.
    pub dynamic: Option<DynRender>,
}

/// The description of a subtree that is still to be built.
pub struct Widget {
    pub render: Render,
    /// The data attached to the widget, outermost first.
    pub attachments: Vec<Attachment>,
    /// Present when this widget stands for a dynamic position.
    pub dynamic: Option<DynRender>,
    pub children: Vec<Widget>,
}

impl RenderNode {
    /// The payload of a placeholder.
    pub fn void() -> (r: Self)
        ensures
            r.render == Render::Void,
            r.attachments@ == Seq::<Attachment>::empty(),
            r.dynamic.is_none(),
    {
        RenderNode { render: Render::Void, attachments: Vec::new(), dynamic: None }
    }

    /// The transform through which the node is painted, if it has one.
    pub fn get_transform(&self) -> (r: Option<Transform>)
        ensures
            r == match self.render {
                Render::Transform(t) => Some(t.transform),
                _ => None,
            },
    {
        match self.render {
            Render::Transform(t) => Some(t.transform),
            _ => None,
        }
    }

    /// The first key among the attachments, outermost first.
    pub open spec fn key_of(&self) -> Option<KeyWidget> {
        first_key(self.attachments@, 0)
    }

    /// The first delay-drop marker among the attachments, outermost first.
    pub open spec fn delay_drop_of(&self) -> Option<DelayDrop> {
        first_delay_drop(self.attachments@, 0)
    }

    /// The node asks to linger when it is removed now.
    pub open spec fn delays_drop(&self) -> bool {
        match self.delay_drop_of() {
            Some(d) => !d.delay_drop_until,
            None => false,
        }
    }

    /// The node holds a dynamic position with an output that is not yet in
    /// the tree.
    pub open spec fn needs_regen(&self) -> bool {
        match self.dynamic {
            Some(d) => d.dyn_widgets.dyns.is_some(),
            None => false,
        }
    }
}

/// Position of the first key at or after position `from`, if there is one.
pub open spec fn first_key_index(s: Seq<Attachment>, from: int) -> Option<int>
    decreases s.len() - from,
{
    if from < 0 || from >= s.len() {
        None
    } else if s[from] is Key {
        Some(from)
    } else {
        first_key_index(s, from + 1)
    }
}

/// Where a first key is found, a key stands.
pub proof fn lemma_first_key_index(s: Seq<Attachment>, from: int)
    requires
        0 <= from,
    ensures
        match first_key_index(s, from) {
            Some(i) => from <= i < s.len() && s[i] is Key,
            None => true,
        },
    decreases s.len() - from,
{
    if from < s.len() {
        lemma_first_key_index(s, from + 1);
    }
}

/// The first key at or after position `from`.
pub open spec fn first_key(s: Seq<Attachment>, from: int) -> Option<KeyWidget> {
    match first_key_index(s, from) {
        Some(i) => Some(s[i]->Key_0),
        None => None,
    }
}

/// Position of the first delay-drop marker at or after position `from`.
pub open spec fn first_delay_drop_index(s: Seq<Attachment>, from: int) -> Option<int>
    decreases s.len() - from,
{
    if from < 0 || from >= s.len() {
        None
    } else if s[from] is DelayDrop {
        Some(from)
    } else {
        first_delay_drop_index(s, from + 1)
    }
}

/// Where a first delay-drop marker is found, such a marker stands.
pub proof fn lemma_first_delay_drop_index(s: Seq<Attachment>, from: int)
    requires
        0 <= from,
    ensures
        match first_delay_drop_index(s, from) {
            Some(i) => from <= i < s.len() && s[i] is DelayDrop,
            None => true,
        },
    decreases s.len() - from,
{
    if from < s.len() {
        lemma_first_delay_drop_index(s, from + 1);
    }
}

/// Putting a delay-drop marker where the first one stood makes it the first
/// one.
pub proof fn lemma_set_delay_drop(s: Seq<Attachment>, p: int, d: DelayDrop, from: int)
    requires
        0 <= from,
        first_delay_drop_index(s, from) == Some(p),
    ensures
        first_delay_drop_index(s.update(p, Attachment::DelayDrop(d)), from) == Some(p),
        first_delay_drop(s.update(p, Attachment::DelayDrop(d)), from) == Some(d),
    decreases s.len() - from,
{
    lemma_first_delay_drop_index(s, from);
    if from < s.len() && !(s[from] is DelayDrop) {
        lemma_set_delay_drop(s, p, d, from + 1);
    }
}

/// The first delay-drop marker at or after position `from`.
pub open spec fn first_delay_drop(s: Seq<Attachment>, from: int) -> Option<DelayDrop> {
    match first_delay_drop_index(s, from) {
        Some(i) => Some(s[i]->DelayDrop_0),
        None => None,
    }
}

/// Finds the first key among `attachments`.
pub fn find_key(attachments: &Vec<Attachment>) -> (r: Option<usize>)
    ensures
        match r {
            Some(i) => first_key_index(attachments@, 0) == Some(i as int) && i < attachments@.len()
                && attachments@[i as int] is Key,
            None => first_key_index(attachments@, 0).is_none(),
        },
{
    let mut i: usize = 0;
    while i < attachments.len()
        invariant
            i <= attachments.len(),
            first_key_index(attachments@, 0) == first_key_index(attachments@, i as int),
        decreases attachments.len() - i,
    {
        match attachments[i] {
            Attachment::Key(_) => {
                return Some(i);
            },
            _ => {},
        }
        i = i + 1;
    }
    None
}

/// Finds the first delay-drop marker among `attachments`.
pub fn find_delay_drop(attachments: &Vec<Attachment>) -> (r: Option<usize>)
    ensures
        match r {
            Some(i) => first_delay_drop_index(attachments@, 0) == Some(i as int) && i
                < attachments@.len() && attachments@[i as int] is DelayDrop,
            None => first_delay_drop_index(attachments@, 0).is_none(),
        },
{
    let mut i: usize = 0;
    while i < attachments.len()
        invariant
            i <= attachments.len(),
            first_delay_drop_index(attachments@, 0) == first_delay_drop_index(attachments@, i as int),
        decreases attachments.len() - i,
    {
        match attachments[i] {
            Attachment::DelayDrop(_) => {
                return Some(i);
            },
            _ => {},
        }
        i = i + 1;
    }
    None
}

impl Widget {
    /// A widget that renders `render`, with nothing attached and no child.
    pub fn new(render: Render) -> (r: Self)
        ensures
            r.render == render,
            r.attachments@ == Seq::<Attachment>::empty(),
            r.dynamic.is_none(),
            r.children@ == Seq::<Widget>::empty(),
    {
        Widget { render, attachments: Vec::new(), dynamic: None, children: Vec::new() }
    }

    /// The placeholder widget.
    pub fn void() -> (r: Self)
        ensures
            r.render == Render::Void,
            r.attachments@ == Seq::<Attachment>::empty(),
            r.dynamic.is_none(),
            r.children@ == Seq::<Widget>::empty(),
    {
        Widget::new(Render::Void)
    }

    /// A dynamic position. Until its first regeneration it is a placeholder
    /// in the tree.
    pub fn dynamic(dynamic: DynRender) -> (r: Self)
        ensures
            r.render == Render::Void,
            r.attachments@ == Seq::<Attachment>::empty(),
            r.dynamic == Some(dynamic),
            r.children@ == Seq::<Widget>::empty(),
    {
        Widget { render: Render::Void, attachments: Vec::new(), dynamic: Some(dynamic), children: Vec::new() }
    }

    /// The same widget with `child` as its new last child.
    pub fn with_child(self, child: Widget) -> (r: Self)
        ensures
            r.render == self.render,
            r.attachments == self.attachments,
            r.dynamic == self.dynamic,
            r.children@ == self.children@.push(child),
    {
        let mut w = self;
        w.children.push(child);
        w
    }

    /// The same widget wrapped in `attachment`, which becomes the outermost.
    pub fn attach(self, attachment: Attachment) -> (r: Self)
        ensures
            r.render == self.render,
            r.attachments@ == seq![attachment] + self.attachments@,
            r.dynamic == self.dynamic,
            r.children == self.children,
    {
        let mut w = self;
        w.attachments.insert(0, attachment);
        proof {
            assert(w.attachments@ =~= seq![attachment] + self.attachments@);
        }
        w
    }

    /// The same widget with a key as its outermost attachment.
    pub fn with_key(self, key: KeyWidget) -> (r: Self)
        ensures
            r.render == self.render,
            r.attachments@ == seq![Attachment::Key(key)] + self.attachments@,
            r.dynamic == self.dynamic,
            r.children == self.children,
    {
        self.attach(Attachment::Key(key))
    }

    /// The same widget with a delay-drop marker as its outermost attachment.
    pub fn with_delay_drop(self, delay_drop_until: bool) -> (r: Self)
        ensures
            r.render == self.render,
            r.attachments@ == seq![Attachment::DelayDrop(DelayDrop { delay_drop_until })]
                + self.attachments@,
            r.dynamic == self.dynamic,
            r.children == self.children,
    {
        self.attach(Attachment::DelayDrop(DelayDrop { delay_drop_until }))
    }

    /// The payload of the node that is built for this widget.
    pub open spec fn payload(self) -> RenderNode {
        RenderNode { render: self.render, attachments: self.attachments, dynamic: self.dynamic }
    }

    /// Number of nodes that are built for this widget.
    pub open spec fn node_count(self) -> nat
        decreases self,
    {
        1 + self.node_count_from(0)
    }

    /// Number of nodes that are built for the children from position `k` on.
    pub open spec fn node_count_from(self, k: int) -> nat
        decreases self, self.children@.len() - k,
    {
        if 0 <= k < self.children@.len() {
            self.children@[k].node_count() + self.node_count_from(k + 1)
        } else {
            0
        }
    }

    /// Every widget from this one down its first children has at most one
    /// child.
    pub open spec fn is_chain(self) -> bool
        decreases self,
    {
        self.children@.len() == 0 || (self.children@.len() == 1 && self.children@[0].is_chain())
    }

    /// Number of steps from this widget down to the leaf of its chain.
    pub open spec fn chain_len(self) -> nat
        decreases self,
    {
        if self.children@.len() == 1 {
            1 + self.children@[0].chain_len()
        } else {
            0
        }
    }

    /// Whether every widget from this one down its first children has at
    /// most one child.
    pub fn check_chain(&self) -> (r: bool)
        ensures
            r == self.is_chain(),
        decreases self,
    {
        if self.children.len() == 0 {
            true
        } else if self.children.len() == 1 {
            self.children[0].check_chain()
        } else {
            false
        }
    }
}

/// The subtree of `id` is what is built for `w`: the same payloads, and the
/// children in the same order.
pub open spec fn realizes(a: &TreeArena<RenderNode>, id: NodeId, w: Widget) -> bool
    decreases w, 1nat,
{
    &&& a.has(id)
    &&& a.data_of(id) == w.payload()
    &&& realizes_children(a, id, w)
}

/// The children of `id` are what is built for the children of `w`.
pub open spec fn realizes_children(a: &TreeArena<RenderNode>, id: NodeId, w: Widget) -> bool
    decreases w, 0nat,
{
    &&& a.children_of(id).len() == w.children@.len()
    &&& forall|j: int|
        0 <= j < w.children@.len() ==> realizes(a, #[trigger] a.children_of(id)[j], w.children@[j])
}

/// Below `id` stands the chain that is built for the chain `w`, and the
/// children of the leaf of that chain are `tail`.
pub open spec fn realizes_chain(a: &TreeArena<RenderNode>, id: NodeId, w: Widget, tail: Seq<NodeId>) -> bool
    decreases w,
{
    if w.children@.len() == 1 {
        &&& a.children_of(id).len() == 1
        &&& a.has(a.children_of(id)[0])
        &&& a.data_of(a.children_of(id)[0]) == w.children@[0].payload()
        &&& realizes_chain(a, a.children_of(id)[0], w.children@[0], tail)
    } else {
        a.children_of(id) == tail
    }
}

/// The payloads of `after` are those of `before`, but for the attachment at
/// position `i` of `id`, which is `att`. The forest is the same.
pub open spec fn attachment_set(
    after: &TreeArena<RenderNode>,
    before: &TreeArena<RenderNode>,
    id: NodeId,
    i: int,
    att: Attachment,
) -> bool {
    &&& after.same_shape(before)
    &&& after.data_of(id).render == before.data_of(id).render
    &&& after.data_of(id).dynamic == before.data_of(id).dynamic
    &&& after.data_of(id).attachments@ == before.data_of(id).attachments@.update(i, att)
    &&& forall|x: NodeId| before.has(x) && x != id ==> #[trigger] after.data_of(x) == before.data_of(x)
}

/// Puts `att` in the place of the attachment at position `i` of a node.
pub fn set_attachment(arena: &mut TreeArena<RenderNode>, id: NodeId, i: usize, att: Attachment)
    requires
        old(arena).wf(),
        old(arena).has(id),
        i < old(arena).data_of(id).attachments@.len(),
    ensures
        final(arena).wf(),
        attachment_set(final(arena), old(arena), id, i as int, att),
{
    let mut node = arena.replace(id, RenderNode::void());
    let ghost mid = *arena;
    node.attachments.set(i, att);
    let _ = arena.replace(id, node);
    proof {
        assert forall|x: NodeId| old(arena).has(x) && x != id implies #[trigger] arena.data_of(x) == old(arena).data_of(x) by {
            assert(mid.data_of(x) == old(arena).data_of(x));
        }
        assert forall|x: NodeId| #[trigger] arena.parent_of(x) == old(arena).parent_of(x) by {
            assert(mid.parent_of(x) == old(arena).parent_of(x));
        }
        assert forall|x: NodeId| #[trigger] arena.children_of(x) == old(arena).children_of(x) by {
            assert(mid.children_of(x) == old(arena).children_of(x));
        }
        assert forall|x: NodeId| #[trigger] arena.ancestors_of(x) == old(arena).ancestors_of(x) by {
            assert(mid.ancestors_of(x) == old(arena).ancestors_of(x));
        }
        assert forall|x: NodeId| #[trigger] arena.is_dropped(x) == old(arena).is_dropped(x) by {
            assert(mid.is_dropped(x) == old(arena).is_dropped(x));
        }
    }
}

/// The payloads of `after` are those of `before`, but for the dynamic
/// position of `id`, which is `dynamic`. The forest is the same.
pub open spec fn dynamic_set(
    after: &TreeArena<RenderNode>,
    before: &TreeArena<RenderNode>,
    id: NodeId,
    dynamic: Option<DynRender>,
) -> bool {
    &&& after.same_shape(before)
    &&& after.data_of(id).render == before.data_of(id).render
    &&& after.data_of(id).attachments == before.data_of(id).attachments
    &&& after.data_of(id).dynamic == dynamic
    &&& forall|x: NodeId| before.has(x) && x != id ==> #[trigger] after.data_of(x) == before.data_of(x)
}

/// Puts `dynamic` in the place of the dynamic position of a node and returns
/// what was there.
pub fn replace_dynamic(arena: &mut TreeArena<RenderNode>, id: NodeId, dynamic: Option<DynRender>) -> (r:
    Option<DynRender>)
    requires
        old(arena).wf(),
        old(arena).has(id),
    ensures
        final(arena).wf(),
        r == old(arena).data_of(id).dynamic,
        dynamic_set(final(arena), old(arena), id, dynamic),
{
    let node = arena.replace(id, RenderNode::void());
    let ghost mid = *arena;
    let RenderNode { render, attachments, dynamic: before } = node;
    let _ = arena.replace(id, RenderNode { render, attachments, dynamic });
    proof {
        assert forall|x: NodeId| old(arena).has(x) && x != id implies #[trigger] arena.data_of(x) == old(arena).data_of(x) by {
            assert(mid.data_of(x) == old(arena).data_of(x));
        }
        assert forall|x: NodeId| #[trigger] arena.parent_of(x) == old(arena).parent_of(x) by {
            assert(mid.parent_of(x) == old(arena).parent_of(x));
        }
        assert forall|x: NodeId| #[trigger] arena.children_of(x) == old(arena).children_of(x) by {
            assert(mid.children_of(x) == old(arena).children_of(x));
        }
        assert forall|x: NodeId| #[trigger] arena.ancestors_of(x) == old(arena).ancestors_of(x) by {
            assert(mid.ancestors_of(x) == old(arena).ancestors_of(x));
        }
        assert forall|x: NodeId| #[trigger] arena.is_dropped(x) == old(arena).is_dropped(x) by {
            assert(mid.is_dropped(x) == old(arena).is_dropped(x));
        }
    }
    before
}

} // verus!
