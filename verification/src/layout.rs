//! The layout tree: which boxes the styled nodes generate, and how runs of
//! inline-level children of a block are wrapped in anonymous block boxes;
//! and the keywords and shorthands that box geometry is read from.  The
//! geometry itself, which is floating-point, is not part of this module.
use vstd::prelude::*;
use vstd::string::StringExecFns;

use crate::dom::{map_get, opt_view, ElementData, NodeType};
use crate::style::{
    clear_spec, display_spec, float_spec, input_type, input_type_spec, opt_s, position_spec,
    z_index_spec, Clear, Display, Float, Position, StyledNode, ZIndex,
};
use crate::text::{
    chars_of, ends, ends_lit, eq_lit, is_whitespace, is_ws, split_whitespace, string_of, to_lowercase,
    trim, trim_str, unicode_lower, vviews, words,
};

verus! {

/// The kind of box a styled node generates.
#[verifier::reject_recursive_types(M)]
pub enum BoxType<'a, M> {
    BlockNode(&'a StyledNode<M>),
    InlineNode(&'a StyledNode<M>),
    /// An anonymous block box, which holds a run of inline-level boxes.
    Anonymous,
}

/// A box of the layout tree and the boxes inside it.
#[verifier::reject_recursive_types(M)]
pub struct LayoutBox<'a, M> {
    pub box_type: BoxType<'a, M>,
    pub children: Vec<LayoutBox<'a, M>>,
}

/// The kind of a box in the model.
pub enum BoxKind {
    Block,
    Inline,
    Anonymous,
}

/// The model of a box: its kind, the styled node it belongs to (none for an
/// anonymous box), and the boxes inside it.
#[verifier::reject_recursive_types(M)]
pub struct BoxView<M> {
    pub kind: BoxKind,
    pub node: Option<StyledNode<M>>,
    pub kids: Seq<BoxView<M>>,
}

impl<'a, M> LayoutBox<'a, M> {
    /// The model of this box and the boxes inside it.
    pub open spec fn bv(&self) -> BoxView<M>
        decreases self,
    {
        BoxView {
            kind: match self.box_type {
                BoxType::BlockNode(_) => BoxKind::Block,
                BoxType::InlineNode(_) => BoxKind::Inline,
                BoxType::Anonymous => BoxKind::Anonymous,
            },
            node: match self.box_type {
                BoxType::BlockNode(n) => Some(*n),
                BoxType::InlineNode(n) => Some(*n),
                BoxType::Anonymous => None,
            },
            kids: bvs(self.children@),
        }
    }
}

/// The models of a list of boxes.
pub open spec fn bvs<'a, M>(s: Seq<LayoutBox<'a, M>>) -> Seq<BoxView<M>>
    decreases s,
{
    Seq::new(s.len(), |i: int| if 0 <= i < s.len() { s[i].bv() } else { BoxView { kind: BoxKind::Anonymous, node: None, kids: Seq::empty() } })
}

pub open spec fn disp<M>(sn: StyledNode<M>) -> Display {
    display_spec(sn.node, map_get(sn.specified_values@, "display"@))
}

pub open spec fn out_of_flow_or_floating<M>(sn: StyledNode<M>) -> bool {
    let p = position_spec(map_get(sn.specified_values@, "position"@));
    let f = float_spec(map_get(sn.specified_values@, "float"@));
    p is Absolute || p is Fixed || !(f is NoFloat)
}

/// The display a node is laid out with: absolutely positioned and floating
/// boxes are block-level.
pub open spec fn layout_display_spec<M>(sn: StyledNode<M>) -> Display {
    let d = disp(sn);
    if d is Flex {
        d
    } else if !(d is Hidden) && out_of_flow_or_floating(sn) {
        Display::Block
    } else {
        d
    }
}

/// The display of a flex item: element boxes are block-level.
pub open spec fn blockified_spec<M>(sn: StyledNode<M>) -> Display {
    match sn.node.node_type {
        NodeType::Text(_) => Display::Inline,
        NodeType::Element(_) => match disp(sn) {
            Display::Hidden => Display::Hidden,
            Display::Flex => Display::Flex,
            _ => Display::Block,
        },
    }
}

pub open spec fn kind_for(d: Display) -> BoxKind {
    match d {
        Display::Block | Display::Flex => BoxKind::Block,
        Display::Inline | Display::InlineBlock => BoxKind::Inline,
        Display::Hidden => BoxKind::Anonymous,
    }
}

pub open spec fn anon_of<M>(kids: Seq<BoxView<M>>) -> BoxView<M> {
    BoxView { kind: BoxKind::Anonymous, node: None, kids }
}

/// The box a styled node generates; `force` blockifies it as a flex item.
pub open spec fn box_spec<M>(sn: StyledNode<M>, force: bool) -> BoxView<M>
    decreases sn, 1int,
{
    let ld = if force {
        blockified_spec(sn)
    } else {
        layout_display_spec(sn)
    };
    let kids = if disp(sn) is Hidden {
        Seq::empty()
    } else if ld is Inline {
        inline_kids(sn.children@)
    } else if ld is Flex {
        flex_kids(sn.children@)
    } else {
        block_kids(sn.children@)
    };
    BoxView {
        kind: kind_for(ld),
        node: if ld is Hidden {
            None
        } else {
            Some(sn)
        },
        kids,
    }
}

/// The boxes of the children of an inline box: each child that is shown.
pub open spec fn inline_kids<M>(cs: Seq<StyledNode<M>>) -> Seq<BoxView<M>>
    decreases cs, 0int,
{
    if cs.len() == 0 {
        Seq::empty()
    } else {
        let r = inline_kids(cs.drop_last());
        let c = cs.last();
        if disp(c) is Hidden {
            r
        } else {
            r.push(box_spec(c, false))
        }
    }
}

/// The boxes a child of a flex container adds: a text run in an anonymous
/// box, a positioned child as it is, another element blockified.
pub open spec fn flex_item<M>(c: StyledNode<M>) -> Seq<BoxView<M>>
    decreases c, 2int,
{
    let p = position_spec(map_get(c.specified_values@, "position"@));
    if disp(c) is Hidden {
        Seq::empty()
    } else if p is Absolute || p is Fixed {
        seq![box_spec(c, false)]
    } else {
        match c.node.node_type {
            NodeType::Text(_) => seq![anon_of(seq![box_spec(c, false)])],
            NodeType::Element(_) => match disp(c) {
                Display::Block | Display::Flex => seq![box_spec(c, false)],
                _ => seq![box_spec(c, true)],
            },
        }
    }
}

/// The boxes of the children of a flex container.
pub open spec fn flex_kids<M>(cs: Seq<StyledNode<M>>) -> Seq<BoxView<M>>
    decreases cs, 0int,
{
    if cs.len() == 0 {
        Seq::empty()
    } else {
        flex_kids(cs.drop_last()) + flex_item(cs.last())
    }
}

/// The boxes of the children of a block box: block-level children as they
/// are, and each run of inline-level children (hidden children aside) in
/// one anonymous box.
pub open spec fn block_kids<M>(cs: Seq<StyledNode<M>>) -> Seq<BoxView<M>>
    decreases cs, 0int,
{
    if cs.len() == 0 {
        Seq::empty()
    } else {
        let r = block_kids(cs.drop_last());
        let c = cs.last();
        match layout_display_spec(c) {
            Display::Hidden => r,
            Display::Block | Display::Flex => r.push(box_spec(c, false)),
            _ => if r.len() > 0 && r.last().kind is Anonymous {
                r.update(r.len() - 1, anon_of(r.last().kids.push(box_spec(c, false))))
            } else {
                r.push(anon_of(seq![box_spec(c, false)]))
            },
        }
    }
}

/// Every box of the list is an inline box.
pub open spec fn all_inline<M>(k: Seq<BoxView<M>>) -> bool {
    forall|j: int| 0 <= j < k.len() ==> (#[trigger] k[j]).kind is Inline
}

/// A block box, or an anonymous box that holds one or more inline boxes.
pub open spec fn good_box<M>(b: BoxView<M>) -> bool {
    b.kind is Block || (b.kind is Anonymous && b.kids.len() > 0 && all_inline(b.kids))
}

/// Boxes as a block lays out its children: each is a block box or an
/// anonymous box that holds one or more inline boxes, and no two anonymous
/// boxes are next to each other.
pub open spec fn block_shape<M>(r: Seq<BoxView<M>>) -> bool {
    &&& forall|i: int| 0 <= i < r.len() ==> good_box(#[trigger] r[i])
    &&& forall|i: int| 0 <= i < r.len() - 1 ==> #[trigger] apart(r, i)
}

/// The boxes at `i` and `i + 1` are not both anonymous.
pub open spec fn apart<M>(r: Seq<BoxView<M>>, i: int) -> bool {
    !(r[i].kind is Anonymous && r[i + 1].kind is Anonymous)
}

proof fn lemma_shape_push<M>(r: Seq<BoxView<M>>, b: BoxView<M>)
    requires
        block_shape(r),
        good_box(b),
        !(r.len() > 0 && r.last().kind is Anonymous && b.kind is Anonymous),
    ensures
        block_shape(r.push(b)),
{
    let e = r.push(b);
    assert forall|i: int| 0 <= i < e.len() implies good_box(#[trigger] e[i]) by {
        if i < r.len() {
            assert(e[i] == r[i]);
        }
    }
    assert forall|i: int| 0 <= i < e.len() - 1 implies #[trigger] apart(e, i) by {
        assert(e[i] == r[i]);
        if i + 1 < r.len() {
            assert(e[i + 1] == r[i + 1]);
            assert(apart(r, i));
        }
    }
}

proof fn lemma_shape_grow_last<M>(r: Seq<BoxView<M>>, b: BoxView<M>)
    requires
        block_shape(r),
        r.len() > 0,
        r.last().kind is Anonymous,
        b.kind is Inline,
    ensures
        block_shape(r.update(r.len() - 1, anon_of(r.last().kids.push(b)))),
{
    let k = r.last().kids.push(b);
    let e = r.update(r.len() - 1, anon_of(k));
    assert(good_box(r[r.len() - 1]));
    assert forall|j: int| 0 <= j < k.len() implies (#[trigger] k[j]).kind is Inline by {
        if j < k.len() - 1 {
            assert(k[j] == r[r.len() - 1].kids[j]);
        }
    }
    assert(good_box(anon_of(k)));
    assert forall|i: int| 0 <= i < e.len() implies good_box(#[trigger] e[i]) by {
        if i < r.len() - 1 {
            assert(e[i] == r[i]);
        }
    }
    assert forall|i: int| 0 <= i < e.len() - 1 implies #[trigger] apart(e, i) by {
        assert(e[i] == r[i]);
        assert(apart(r, i));
        if i + 1 < r.len() - 1 {
            assert(e[i + 1] == r[i + 1]);
        }
    }
}

proof fn lemma_block_kids_shape<M>(cs: Seq<StyledNode<M>>)
    ensures
        block_shape(block_kids(cs)),
    decreases cs.len(),
{
    if cs.len() > 0 {
        let t = cs.drop_last();
        lemma_block_kids_shape(t);
        let r = block_kids(t);
        let c = cs.last();
        let b = box_spec(c, false);
        assert(b.kind == kind_for(layout_display_spec(c)));
        match layout_display_spec(c) {
            Display::Hidden => {},
            Display::Block | Display::Flex => {
                lemma_shape_push(r, b);
            },
            _ => {
                if r.len() > 0 && r.last().kind is Anonymous {
                    lemma_shape_grow_last(r, b);
                } else {
                    let a = anon_of(seq![b]);
                    assert(a.kids[0] == b);
                    assert(all_inline(a.kids));
                    lemma_shape_push(r, a);
                }
            },
        }
    }
}

/// Runs of inline content in a block are wrapped in anonymous boxes: the
/// boxes inside a shown block-level or inline-block box are block boxes
/// and anonymous boxes, each anonymous box holds one or more inline boxes,
/// and no two anonymous boxes are next to each other.
pub proof fn lemma_anonymous_boxes<M>(sn: StyledNode<M>)
    requires
        !(disp(sn) is Hidden),
        layout_display_spec(sn) is Block || layout_display_spec(sn) is InlineBlock,
    ensures
        block_shape(box_spec(sn, false).kids),
{
    lemma_block_kids_shape(sn.children@);
}


impl<'a, M> LayoutBox<'a, M> {
    /// A box of the given kind with no boxes inside.
    pub fn new(box_type: BoxType<'a, M>) -> (r: Self)
        ensures
            r.box_type == box_type,
            r.children@.len() == 0,
    {
        LayoutBox { box_type, children: Vec::new() }
    }

    /// The styled node of the box; none for an anonymous box.
    pub fn get_style_node(&self) -> (r: Option<&'a StyledNode<M>>)
        ensures
            match r {
                Some(n) => self.bv().node == Some(*n),
                None => self.bv().node is None,
            },
    {
        match self.box_type {
            BoxType::BlockNode(node) => Some(node),
            BoxType::InlineNode(node) => Some(node),
            BoxType::Anonymous => None,
        }
    }
}

proof fn lemma_bvs_push<'a, M>(s: Seq<LayoutBox<'a, M>>, b: LayoutBox<'a, M>)
    ensures
        bvs(s.push(b)) == bvs(s).push(b.bv()),
{
    assert(bvs(s.push(b)) =~= bvs(s).push(b.bv()));
}

fn layout_display_for<M>(sn: &StyledNode<M>) -> (r: Display)
    ensures
        r == layout_display_spec(*sn),
{
    let display = sn.display();
    if display == Display::Flex {
        display
    } else if display != Display::Hidden && (sn.position().is_out_of_flow() || sn.float().is_floating()) {
        Display::Block
    } else {
        display
    }
}

fn blockified_display_for<M>(sn: &StyledNode<M>) -> (r: Display)
    ensures
        r == blockified_spec(*sn),
{
    match &sn.node.node_type {
        NodeType::Text(_) => Display::Inline,
        NodeType::Element(_) => match sn.display() {
            Display::Hidden => Display::Hidden,
            Display::Flex => Display::Flex,
            _ => Display::Block,
        },
    }
}

/// The layout tree of a styled node.
pub fn build_layout_tree<'a, M>(style_node: &'a StyledNode<M>) -> (r: LayoutBox<'a, M>)
    ensures
        r.bv() == box_spec(*style_node, false),
    decreases style_node, 1int,
{
    build_layout_tree_with_mode(style_node, false)
}

fn build_layout_tree_with_mode<'a, M>(style_node: &'a StyledNode<M>, force_block_root: bool) -> (r:
    LayoutBox<'a, M>)
    ensures
        r.bv() == box_spec(*style_node, force_block_root),
    decreases style_node, 0int,
{
    let ghost sn = *style_node;
    let ghost cs = style_node.children@;
    let display = style_node.display();
    let layout_display = if force_block_root {
        blockified_display_for(style_node)
    } else {
        layout_display_for(style_node)
    };
    let mut root = LayoutBox::new(
        match layout_display {
            Display::Block | Display::Flex => BoxType::BlockNode(style_node),
            Display::Inline | Display::InlineBlock => BoxType::InlineNode(style_node),
            Display::Hidden => BoxType::Anonymous,
        },
    );
    let ghost kind = root.box_type;
    assert(bvs(root.children@) =~= Seq::<BoxView<M>>::empty());
    if display == Display::Hidden {
        return root;
    }
    if layout_display == Display::Inline {
        let mut i: usize = 0;
        while i < style_node.children.len()
            invariant
                0 <= i <= cs.len(),
                cs == style_node.children@,
                root.box_type == kind,
                bvs(root.children@) == inline_kids(cs.take(i as int)),
            decreases cs.len() - i,
        {
            let child = &style_node.children[i];
            assert(cs.take(i + 1).drop_last() == cs.take(i as int));
            assert(cs.take(i + 1).last() == cs[i as int]);
            if child.display() != Display::Hidden {
                let b = build_layout_tree(child);
                proof {
                    lemma_bvs_push(root.children@, b);
                }
                root.children.push(b);
            }
            i += 1;
        }
        assert(cs.take(cs.len() as int) == cs);
        return root;
    }
    if layout_display == Display::Flex {
        let mut i: usize = 0;
        while i < style_node.children.len()
            invariant
                0 <= i <= cs.len(),
                cs == style_node.children@,
                root.box_type == kind,
                bvs(root.children@) == flex_kids(cs.take(i as int)),
            decreases cs.len() - i,
        {
            let child = &style_node.children[i];
            assert(cs.take(i + 1).drop_last() == cs.take(i as int));
            assert(cs.take(i + 1).last() == cs[i as int]);
            append_flex_child(&mut root, child);
            i += 1;
        }
        assert(cs.take(cs.len() as int) == cs);
        return root;
    }
    let mut anon: Option<LayoutBox<'a, M>> = None;
    let mut i: usize = 0;
    while i < style_node.children.len()
        invariant
            0 <= i <= cs.len(),
            cs == style_node.children@,
            root.box_type == kind,
            bvs(root.children@) + (match anon {
                Some(a) => seq![a.bv()],
                None => Seq::empty(),
            }) == block_kids(cs.take(i as int)),
            anon matches Some(a) ==> a.box_type is Anonymous,
            anon is None ==> (block_kids(cs.take(i as int)).len() == 0 || !(block_kids(
                cs.take(i as int),
            ).last().kind is Anonymous)),
        decreases cs.len() - i,
    {
        let child = &style_node.children[i];
        let ghost before = block_kids(cs.take(i as int));
        assert(cs.take(i + 1).drop_last() == cs.take(i as int));
        assert(cs.take(i + 1).last() == cs[i as int]);
        match layout_display_for(child) {
            Display::Hidden => {},
            Display::Block | Display::Flex => {
                match anon.take() {
                    Some(a) => {
                        proof {
                            lemma_bvs_push(root.children@, a);
                        }
                        root.children.push(a);
                    },
                    None => {},
                }
                let b = build_layout_tree(child);
                proof {
                    lemma_bvs_push(root.children@, b);
                }
                root.children.push(b);
                assert(bvs(root.children@) == before.push(b.bv()));
            },
            Display::Inline | Display::InlineBlock => {
                let ghost had = anon is Some;
                let mut a = match anon.take() {
                    Some(a) => a,
                    None => LayoutBox::new(BoxType::Anonymous),
                };
                let ghost a0 = a;
                let b = build_layout_tree(child);
                proof {
                    lemma_bvs_push(a.children@, b);
                }
                a.children.push(b);
                proof {
                    if had {
                        assert(before.last() == a0.bv());
                        assert(bvs(root.children@) + seq![a.bv()] =~= before.update(
                            before.len() - 1,
                            anon_of(before.last().kids.push(box_spec(cs[i as int], false))),
                        ));
                    } else {
                        assert(bvs(a0.children@) =~= Seq::<BoxView<M>>::empty());
                        assert(a.bv().kids =~= seq![box_spec(cs[i as int], false)]);
                        assert(bvs(root.children@) + seq![a.bv()] =~= before.push(
                            anon_of(seq![box_spec(cs[i as int], false)]),
                        ));
                    }
                }
                anon = Some(a);
            },
        }
        i += 1;
    }
    match anon.take() {
        Some(a) => {
            proof {
                lemma_bvs_push(root.children@, a);
            }
            root.children.push(a);
        },
        None => {},
    }
    assert(cs.take(cs.len() as int) == cs);
    assert(bvs(root.children@) =~= block_kids(cs));
    root
}

fn append_flex_child<'a, M>(root: &mut LayoutBox<'a, M>, child: &'a StyledNode<M>)
    ensures
        final(root).box_type == old(root).box_type,
        bvs(final(root).children@) == bvs(old(root).children@) + flex_item(*child),
    decreases child, 2int,
{
    if child.display() == Display::Hidden {
        assert(bvs(root.children@) + flex_item(*child) =~= bvs(root.children@));
        return;
    }
    if child.position().is_out_of_flow() {
        let b = build_layout_tree(child);
        proof {
            lemma_bvs_push(root.children@, b);
        }
        root.children.push(b);
        assert(bvs(root.children@) =~= bvs(old(root).children@) + flex_item(*child));
        return;
    }
    match &child.node.node_type {
        NodeType::Text(_) => {
            let mut anon = LayoutBox::new(BoxType::Anonymous);
            let b = build_layout_tree(child);
            proof {
                lemma_bvs_push(anon.children@, b);
            }
            anon.children.push(b);
            assert(anon.bv().kids =~= seq![b.bv()]);
            proof {
                lemma_bvs_push(root.children@, anon);
            }
            root.children.push(anon);
            assert(bvs(root.children@) =~= bvs(old(root).children@) + flex_item(*child));
        },
        NodeType::Element(_) => match child.display() {
            Display::Hidden => {},
            Display::Block | Display::Flex => {
                let b = build_layout_tree(child);
                proof {
                    lemma_bvs_push(root.children@, b);
                }
                root.children.push(b);
                assert(bvs(root.children@) =~= bvs(old(root).children@) + flex_item(*child));
            },
            Display::Inline | Display::InlineBlock => {
                let b = build_layout_tree_with_mode(child, true);
                proof {
                    lemma_bvs_push(root.children@, b);
                }
                root.children.push(b);
                assert(bvs(root.children@) =~= bvs(old(root).children@) + flex_item(*child));
            },
        },
    }
}

// ---------------------------------------------------------------------
// Keywords and shorthands that layout reads.
// ---------------------------------------------------------------------

/// Runs of white space collapsed to one space each.
pub open spec fn collapse_ws(s: Seq<char>) -> Seq<char>
    decreases s.len(),
{
    if s.len() == 0 {
        Seq::empty()
    } else {
        let r = collapse_ws(s.drop_last());
        let c = s.last();
        if !is_ws(c) {
            r.push(c)
        } else if s.len() > 1 && is_ws(s[s.len() - 2]) {
            r
        } else {
            r.push(' ')
        }
    }
}

/// Each run of white space replaced by one space.
pub fn collapse_whitespace(s: &str) -> (r: String)
    ensures
        r@ == collapse_ws(s@),
{
    let cs = chars_of(s);
    let mut out: Vec<char> = Vec::new();
    let mut prev_space = false;
    let mut i: usize = 0;
    while i < cs.len()
        invariant
            0 <= i <= cs@.len(),
            cs@ == s@,
            out@ == collapse_ws(cs@.take(i as int)),
            prev_space == (i > 0 && is_ws(cs@[i - 1])),
        decreases cs@.len() - i,
    {
        let ch = cs[i];
        assert(cs@.take(i + 1).drop_last() == cs@.take(i as int));
        assert(cs@.take(i + 1).last() == ch);
        if is_whitespace(ch) {
            if !prev_space {
                out.push(' ');
                prev_space = true;
            }
        } else {
            out.push(ch);
            prev_space = false;
        }
        i += 1;
    }
    assert(cs@.take(cs@.len() as int) == cs@);
    string_of(out.as_slice())
}

/// Four edges from one to four words, as `margin` and `inset` spread them:
/// top, right, bottom, left.
pub open spec fn four_sides(p: Seq<Seq<char>>) -> (
    Option<Seq<char>>,
    Option<Seq<char>>,
    Option<Seq<char>>,
    Option<Seq<char>>,
) {
    if p.len() == 0 {
        (None, None, None, None)
    } else if p.len() == 1 {
        (Some(p[0]), Some(p[0]), Some(p[0]), Some(p[0]))
    } else if p.len() == 2 {
        (Some(p[0]), Some(p[1]), Some(p[0]), Some(p[1]))
    } else if p.len() == 3 {
        (Some(p[0]), Some(p[1]), Some(p[2]), Some(p[1]))
    } else {
        (Some(p[0]), Some(p[1]), Some(p[2]), Some(p[3]))
    }
}

/// The top, right, bottom and left values of a four-edge shorthand.
pub fn parse_4len(s: &str) -> (r: (Option<String>, Option<String>, Option<String>, Option<String>))
    ensures
        (opt_view(r.0), opt_view(r.1), opt_view(r.2), opt_view(r.3)) == four_sides(words(s@)),
{
    let parts = split_whitespace(chars_of(s).as_slice());
    let ghost p = vviews(parts@);
    assert(p.len() == parts@.len());
    let n = parts.len();
    if n == 0 {
        (None, None, None, None)
    } else if n == 1 {
        assert(p[0] == parts@[0]@);
        (
            Some(string_of(parts[0].as_slice())),
            Some(string_of(parts[0].as_slice())),
            Some(string_of(parts[0].as_slice())),
            Some(string_of(parts[0].as_slice())),
        )
    } else if n == 2 {
        assert(p[0] == parts@[0]@ && p[1] == parts@[1]@);
        (
            Some(string_of(parts[0].as_slice())),
            Some(string_of(parts[1].as_slice())),
            Some(string_of(parts[0].as_slice())),
            Some(string_of(parts[1].as_slice())),
        )
    } else if n == 3 {
        assert(p[0] == parts@[0]@ && p[1] == parts@[1]@ && p[2] == parts@[2]@);
        (
            Some(string_of(parts[0].as_slice())),
            Some(string_of(parts[1].as_slice())),
            Some(string_of(parts[2].as_slice())),
            Some(string_of(parts[1].as_slice())),
        )
    } else {
        assert(p[0] == parts@[0]@ && p[1] == parts@[1]@ && p[2] == parts@[2]@ && p[3] == parts@[3]@);
        (
            Some(string_of(parts[0].as_slice())),
            Some(string_of(parts[1].as_slice())),
            Some(string_of(parts[2].as_slice())),
            Some(string_of(parts[3].as_slice())),
        )
    }
}

/// An edge of a box.
#[derive(Clone, Copy, PartialEq, Eq, Structural)]
pub enum InsetEdge {
    Top,
    Right,
    Bottom,
    Left,
}

pub open spec fn prop<M>(sn: StyledNode<M>, name: Seq<char>) -> Option<Seq<char>> {
    map_get(sn.specified_values@, name)
}

pub open spec fn edge_name(edge: InsetEdge) -> Seq<char> {
    match edge {
        InsetEdge::Top => "top"@,
        InsetEdge::Right => "right"@,
        InsetEdge::Bottom => "bottom"@,
        InsetEdge::Left => "left"@,
    }
}

/// The offset of an edge: its own property, else its part of `inset`.
pub open spec fn inset_spec<M>(sn: StyledNode<M>, edge: InsetEdge) -> Option<Seq<char>> {
    match prop(sn, edge_name(edge)) {
        Some(v) => Some(v),
        None => match prop(sn, "inset"@) {
            None => None,
            Some(sh) => {
                let f = four_sides(words(sh));
                match edge {
                    InsetEdge::Top => f.0,
                    InsetEdge::Right => f.1,
                    InsetEdge::Bottom => f.2,
                    InsetEdge::Left => f.3,
                }
            },
        },
    }
}

/// The specified offset of an edge of a positioned box.
pub fn specified_inset<M>(sn: &StyledNode<M>, edge: InsetEdge) -> (r: Option<String>)
    ensures
        opt_view(r) == inset_spec(*sn, edge),
{
    let longhand = match edge {
        InsetEdge::Top => "top",
        InsetEdge::Right => "right",
        InsetEdge::Bottom => "bottom",
        InsetEdge::Left => "left",
    };
    assert(longhand@ == edge_name(edge));
    match sn.value(longhand) {
        Some(value) => {
            return Some(string_of(chars_of(value.as_str()).as_slice()));
        },
        None => {},
    }
    let shorthand = match sn.value("inset") {
        Some(v) => v,
        None => {
            return None;
        },
    };
    let values = parse_4len(shorthand.as_str());
    match edge {
        InsetEdge::Top => values.0,
        InsetEdge::Right => values.1,
        InsetEdge::Bottom => values.2,
        InsetEdge::Left => values.3,
    }
}

/// The row and column gaps of a `gap` value.
pub open spec fn gap_pair_spec(p: Seq<Seq<char>>) -> (Option<Seq<char>>, Option<Seq<char>>) {
    if p.len() == 0 {
        (None, None)
    } else if p.len() == 1 {
        (Some(p[0]), Some(p[0]))
    } else {
        (Some(p[0]), Some(p[1]))
    }
}

/// The first and second words of a `gap` value; one word stands for both.
pub fn parse_gap_pair(value: &str) -> (r: (Option<String>, Option<String>))
    ensures
        (opt_view(r.0), opt_view(r.1)) == gap_pair_spec(words(value@)),
{
    let parts = split_whitespace(chars_of(value).as_slice());
    let ghost p = vviews(parts@);
    assert(p.len() == parts@.len());
    if parts.len() == 0 {
        (None, None)
    } else if parts.len() == 1 {
        assert(p[0] == parts@[0]@);
        (Some(string_of(parts[0].as_slice())), Some(string_of(parts[0].as_slice())))
    } else {
        assert(p[0] == parts@[0]@ && p[1] == parts@[1]@);
        (Some(string_of(parts[0].as_slice())), Some(string_of(parts[1].as_slice())))
    }
}

/// A `flex` shorthand word that gives the basis: `0` or a length.
pub open spec fn flex_basis_token_spec(token: Seq<char>) -> bool {
    let t = trim(token);
    t == "0"@ || ends(t, "px"@) || ends(t, "%"@) || ends(t, "em"@) || ends(t, "rem"@) || ends(t, "vw"@)
        || ends(t, "vh"@)
}

pub fn is_flex_basis_token(token: &str) -> (r: bool)
    ensures
        r == flex_basis_token_spec(token@),
{
    let t = trim_str(token);
    let t = t.as_slice();
    eq_lit(t, "0") || ends_lit(t, "px") || ends_lit(t, "%") || ends_lit(t, "em") || ends_lit(t, "rem")
        || ends_lit(t, "vw") || ends_lit(t, "vh")
}

/// Whether one of the words is `lit`.
fn has_word(parts: &Vec<Vec<char>>, lit: &str) -> (r: bool)
    ensures
        r == vviews(parts@).contains(lit@),
{
    let ghost p = vviews(parts@);
    let mut i: usize = 0;
    while i < parts.len()
        invariant
            0 <= i <= parts@.len(),
            p == vviews(parts@),
            forall|k: int| 0 <= k < i ==> p[k] != lit@,
        decreases parts@.len() - i,
    {
        if eq_lit(parts[i].as_slice(), lit) {
            assert(p[i as int] == lit@);
            return true;
        }
        i += 1;
    }
    assert forall|k: int| 0 <= k < p.len() implies p[k] != lit@ by {}
    false
}

#[derive(Clone, Copy, PartialEq, Eq, Structural)]
pub enum FlexDirection {
    Row,
    Column,
}

#[derive(Clone, Copy, PartialEq, Eq, Structural)]
pub enum FlexWrap {
    NoWrap,
    Wrap,
}

#[derive(Clone, Copy, PartialEq, Eq, Structural)]
pub enum JustifyContent {
    FlexStart,
    FlexEnd,
    Center,
    SpaceBetween,
    SpaceAround,
    SpaceEvenly,
}

#[derive(Clone, Copy, PartialEq, Eq, Structural)]
pub enum AlignItems {
    Stretch,
    FlexStart,
    FlexEnd,
    Center,
}

/// `flex-direction`, else a `column` word of `flex-flow`; a row otherwise.
pub open spec fn flex_direction_spec<M>(sn: Option<StyledNode<M>>) -> FlexDirection {
    match sn {
        None => FlexDirection::Row,
        Some(n) => match prop(n, "flex-direction"@) {
            Some(d) => if trim(d) == "column"@ {
                FlexDirection::Column
            } else {
                FlexDirection::Row
            },
            None => match prop(n, "flex-flow"@) {
                Some(f) => if words(f).contains("column"@) {
                    FlexDirection::Column
                } else {
                    FlexDirection::Row
                },
                None => FlexDirection::Row,
            },
        },
    }
}

pub fn flex_direction<M>(sn: Option<&StyledNode<M>>) -> (r: FlexDirection)
    ensures
        r == flex_direction_spec(match sn {
            Some(n) => Some(*n),
            None => None,
        }),
{
    let node = match sn {
        Some(n) => n,
        None => {
            return FlexDirection::Row;
        },
    };
    match node.value("flex-direction") {
        Some(d) => {
            if eq_lit(trim_str(d.as_str()).as_slice(), "column") {
                FlexDirection::Column
            } else {
                FlexDirection::Row
            }
        },
        None => match node.value("flex-flow") {
            Some(f) => {
                let parts = split_whitespace(chars_of(f.as_str()).as_slice());
                if has_word(&parts, "column") {
                    FlexDirection::Column
                } else {
                    FlexDirection::Row
                }
            },
            None => FlexDirection::Row,
        },
    }
}

/// `flex-wrap`, else a wrapping word of `flex-flow`; no wrapping otherwise.
pub open spec fn flex_wrap_spec<M>(sn: Option<StyledNode<M>>) -> FlexWrap {
    match sn {
        None => FlexWrap::NoWrap,
        Some(n) => match prop(n, "flex-wrap"@) {
            Some(w) => if trim(w) == "wrap"@ || trim(w) == "wrap-reverse"@ {
                FlexWrap::Wrap
            } else {
                FlexWrap::NoWrap
            },
            None => match prop(n, "flex-flow"@) {
                Some(f) => if words(f).contains("wrap"@) || words(f).contains("wrap-reverse"@) {
                    FlexWrap::Wrap
                } else {
                    FlexWrap::NoWrap
                },
                None => FlexWrap::NoWrap,
            },
        },
    }
}

pub fn flex_wrap<M>(sn: Option<&StyledNode<M>>) -> (r: FlexWrap)
    ensures
        r == flex_wrap_spec(match sn {
            Some(n) => Some(*n),
            None => None,
        }),
{
    let node = match sn {
        Some(n) => n,
        None => {
            return FlexWrap::NoWrap;
        },
    };
    match node.value("flex-wrap") {
        Some(w) => {
            let t = trim_str(w.as_str());
            if eq_lit(t.as_slice(), "wrap") || eq_lit(t.as_slice(), "wrap-reverse") {
                FlexWrap::Wrap
            } else {
                FlexWrap::NoWrap
            }
        },
        None => match node.value("flex-flow") {
            Some(f) => {
                let parts = split_whitespace(chars_of(f.as_str()).as_slice());
                if has_word(&parts, "wrap") || has_word(&parts, "wrap-reverse") {
                    FlexWrap::Wrap
                } else {
                    FlexWrap::NoWrap
                }
            },
            None => FlexWrap::NoWrap,
        },
    }
}

pub open spec fn justify_spec(v: Option<Seq<char>>) -> JustifyContent {
    match v {
        Some(x) => {
            let t = trim(x);
            if t == "flex-end"@ || t == "end"@ {
                JustifyContent::FlexEnd
            } else if t == "center"@ {
                JustifyContent::Center
            } else if t == "space-between"@ {
                JustifyContent::SpaceBetween
            } else if t == "space-around"@ {
                JustifyContent::SpaceAround
            } else if t == "space-evenly"@ {
                JustifyContent::SpaceEvenly
            } else {
                JustifyContent::FlexStart
            }
        },
        None => JustifyContent::FlexStart,
    }
}

/// The `justify-content` of a flex container.
pub fn justify_content<M>(sn: Option<&StyledNode<M>>) -> (r: JustifyContent)
    ensures
        r == justify_spec(match sn {
            Some(n) => prop(*n, "justify-content"@),
            None => None,
        }),
{
    let v = match sn {
        Some(n) => match n.value("justify-content") {
            Some(v) => v,
            None => {
                return JustifyContent::FlexStart;
            },
        },
        None => {
            return JustifyContent::FlexStart;
        },
    };
    let t = trim_str(v.as_str());
    let t = t.as_slice();
    if eq_lit(t, "flex-end") || eq_lit(t, "end") {
        JustifyContent::FlexEnd
    } else if eq_lit(t, "center") {
        JustifyContent::Center
    } else if eq_lit(t, "space-between") {
        JustifyContent::SpaceBetween
    } else if eq_lit(t, "space-around") {
        JustifyContent::SpaceAround
    } else if eq_lit(t, "space-evenly") {
        JustifyContent::SpaceEvenly
    } else {
        JustifyContent::FlexStart
    }
}

/// An alignment keyword, if it names one.
pub open spec fn align_word(t: Seq<char>) -> Option<AlignItems> {
    if t == "flex-start"@ || t == "start"@ {
        Some(AlignItems::FlexStart)
    } else if t == "flex-end"@ || t == "end"@ {
        Some(AlignItems::FlexEnd)
    } else if t == "center"@ {
        Some(AlignItems::Center)
    } else if t == "stretch"@ {
        Some(AlignItems::Stretch)
    } else {
        None
    }
}

fn align_keyword(t: &[char]) -> (r: Option<AlignItems>)
    ensures
        r == align_word(t@),
{
    if eq_lit(t, "flex-start") || eq_lit(t, "start") {
        Some(AlignItems::FlexStart)
    } else if eq_lit(t, "flex-end") || eq_lit(t, "end") {
        Some(AlignItems::FlexEnd)
    } else if eq_lit(t, "center") {
        Some(AlignItems::Center)
    } else if eq_lit(t, "stretch") {
        Some(AlignItems::Stretch)
    } else {
        None
    }
}

/// The `align-items` of a flex container; `stretch` unless it names
/// another alignment.
pub fn align_items<M>(sn: Option<&StyledNode<M>>) -> (r: AlignItems)
    ensures
        r == (match sn {
            Some(n) => match prop(*n, "align-items"@) {
                Some(v) => match align_word(trim(v)) {
                    Some(a) => a,
                    None => AlignItems::Stretch,
                },
                None => AlignItems::Stretch,
            },
            None => AlignItems::Stretch,
        }),
{
    match sn {
        Some(n) => match n.value("align-items") {
            Some(v) => match align_keyword(trim_str(v.as_str()).as_slice()) {
                Some(a) => a,
                None => AlignItems::Stretch,
            },
            None => AlignItems::Stretch,
        },
        None => AlignItems::Stretch,
    }
}

/// The alignment of a flex item: its `align-self` when that names an
/// alignment, the container's otherwise (`auto` included).
pub fn child_align_items<M>(sn: Option<&StyledNode<M>>, container_align: AlignItems) -> (r: AlignItems)
    ensures
        r == (match sn {
            Some(n) => match prop(*n, "align-self"@) {
                Some(v) => match align_word(trim(v)) {
                    Some(a) => a,
                    None => container_align,
                },
                None => container_align,
            },
            None => container_align,
        }),
{
    match sn {
        Some(n) => match n.value("align-self") {
            Some(v) => match align_keyword(trim_str(v.as_str()).as_slice()) {
                Some(a) => a,
                None => container_align,
            },
            None => container_align,
        },
        None => container_align,
    }
}

/// Whether `clear` moves a box below floats on `side`.
pub fn clear_applies_to_float(clear: Clear, side: Float) -> (r: bool)
    ensures
        r == ((clear is Both && (side is Left || side is Right)) || (clear is Left && side is Left) || (
        clear is Right && side is Right)),
{
    match (clear, side) {
        (Clear::Both, Float::Left) | (Clear::Both, Float::Right) | (Clear::Left, Float::Left) | (
            Clear::Right,
            Float::Right,
        ) => true,
        _ => false,
    }
}

// ---------------------------------------------------------------------
// What a box's styled node says.
// ---------------------------------------------------------------------

pub open spec fn pos_of<M>(sn: StyledNode<M>) -> Position {
    position_spec(prop(sn, "position"@))
}

impl<'a, M> LayoutBox<'a, M> {
    /// The display of the box's node; none for an anonymous box.
    pub fn node_display(&self) -> (r: Option<Display>)
        ensures
            r == (match self.bv().node {
                Some(n) => Some(disp(n)),
                None => None,
            }),
    {
        match self.get_style_node() {
            Some(node) => Some(node.display()),
            None => None,
        }
    }

    pub fn is_inline_block_box(&self) -> (r: bool)
        ensures
            r == (self.bv().node matches Some(n) && disp(n) is InlineBlock),
    {
        match self.node_display() {
            Some(Display::InlineBlock) => true,
            _ => false,
        }
    }

    pub fn is_flex_container(&self) -> (r: bool)
        ensures
            r == (self.bv().node matches Some(n) && disp(n) is Flex),
    {
        match self.node_display() {
            Some(Display::Flex) => true,
            _ => false,
        }
    }

    /// The position of the box's node; static for an anonymous box.
    pub fn node_position(&self) -> (r: Position)
        ensures
            r == (match self.bv().node {
                Some(n) => pos_of(n),
                None => Position::Static,
            }),
    {
        match self.get_style_node() {
            Some(node) => node.position(),
            None => Position::Static,
        }
    }

    /// The float of the box's node; an absolutely positioned box does not
    /// float.
    pub fn node_float(&self) -> (r: Float)
        ensures
            r == (match self.bv().node {
                Some(n) => if pos_of(n) is Absolute || pos_of(n) is Fixed {
                    Float::NoFloat
                } else {
                    float_spec(prop(n, "float"@))
                },
                None => Float::NoFloat,
            }),
    {
        if self.node_position().is_out_of_flow() {
            return Float::NoFloat;
        }
        match self.get_style_node() {
            Some(node) => node.float(),
            None => Float::NoFloat,
        }
    }

    /// The clear of the box's node; none for an anonymous box.
    pub fn node_clear(&self) -> (r: Clear)
        ensures
            r == (match self.bv().node {
                Some(n) => clear_spec(prop(n, "clear"@)),
                None => Clear::NoClear,
            }),
    {
        match self.get_style_node() {
            Some(node) => node.clear(),
            None => Clear::NoClear,
        }
    }
}

/// Elements whose subtree shows nothing.
pub open spec fn unpainted_tag(t: Seq<char>) -> bool {
    t == "style"@ || t == "script"@ || t == "head"@ || t == "title"@ || t == "meta"@ || t == "link"@
}

fn is_unpainted_tag(t: &[char]) -> (r: bool)
    ensures
        r == unpainted_tag(t@),
{
    eq_lit(t, "style") || eq_lit(t, "script") || eq_lit(t, "head") || eq_lit(t, "title") || eq_lit(
        t,
        "meta",
    ) || eq_lit(t, "link")
}

/// Whether a box's subtree is left out of the display list.
pub fn skips_display_subtree<M>(node: &LayoutBox<'_, M>) -> (r: bool)
    ensures
        r == (node.bv().node matches Some(n) && (n.node.node_type matches NodeType::Element(ed)
            && unpainted_tag(ed.tag_name@))),
{
    match node.get_style_node() {
        Some(sn) => match &sn.node.node_type {
            NodeType::Element(ed) => is_unpainted_tag(chars_of(ed.tag_name.as_str()).as_slice()),
            NodeType::Text(_) => false,
        },
        None => false,
    }
}

/// Whether a box is painted with the viewport rather than the page: inside
/// a fixed box, or fixed itself.
pub fn node_fixed_context<M>(node: &LayoutBox<'_, M>, fixed_context: bool) -> (r: bool)
    ensures
        r == (fixed_context || (node.bv().node matches Some(n) && pos_of(n) is Fixed)),
{
    fixed_context || match node.get_style_node() {
        Some(sn) => sn.position() == Position::Fixed,
        None => false,
    }
}

/// A box that starts a stacking context: fixed or sticky, or positioned
/// with an integer `z-index`.
pub fn creates_stacking_context<M>(node: &LayoutBox<'_, M>) -> (r: bool)
    ensures
        r == (node.bv().node matches Some(n) && (pos_of(n) is Fixed || pos_of(n) is Sticky || (!(pos_of(
            n,
        ) is Static) && z_index_spec(prop(n, "z-index"@)) is Integer))),
{
    match node.get_style_node() {
        Some(sn) => {
            let position = sn.position();
            position == Position::Fixed || position == Position::Sticky || (position.is_positioned()
                && sn.z_index().stack_level().is_some())
        },
        None => false,
    }
}

/// The `z-index` of a box's node, 0 when it has none.
pub fn stacking_context_level<M>(node: &LayoutBox<'_, M>) -> (r: i32)
    ensures
        r == (match node.bv().node {
            Some(n) => match z_index_spec(prop(n, "z-index"@)) {
                ZIndex::Integer(v) => v,
                ZIndex::Auto => 0,
            },
            None => 0,
        }),
{
    match node.get_style_node() {
        Some(sn) => match sn.z_index().stack_level() {
            Some(v) => v,
            None => 0,
        },
        None => 0,
    }
}

/// Whether a box paints in the layer of positioned boxes.
pub fn paints_in_positioned_layer<M>(node: &LayoutBox<'_, M>) -> (r: bool)
    ensures
        r == (node.bv().node matches Some(n) && !(pos_of(n) is Static)),
{
    match node.get_style_node() {
        Some(sn) => sn.position().is_positioned(),
        None => false,
    }
}

/// Whether `text-decoration` has the word `none` (in any case).
pub fn text_decoration_none<M>(sn: &StyledNode<M>) -> (r: bool)
    ensures
        r == (prop(*sn, "text-decoration"@) matches Some(v) && words(unicode_lower(v)).contains("none"@)),
{
    match sn.value("text-decoration") {
        Some(v) => {
            let lower = to_lowercase(v.as_str());
            let parts = split_whitespace(chars_of(lower.as_str()).as_slice());
            has_word(&parts, "none")
        },
        None => false,
    }
}

/// The label of an `input` box: its `value`, else `Submit` or `Reset` for
/// those types, else nothing.
pub open spec fn input_label_spec(attrs: Map<Seq<char>, Seq<char>>) -> Seq<char> {
    match map_get(attrs, "value"@) {
        Some(v) => v,
        None => if input_type_spec(attrs) == "submit"@ {
            "Submit"@
        } else if input_type_spec(attrs) == "reset"@ {
            "Reset"@
        } else {
            Seq::empty()
        },
    }
}

pub fn input_label(ed: &ElementData) -> (r: String)
    ensures
        r@ == input_label_spec(ed.attributes@),
{
    match ed.attributes.get("value") {
        Some(value) => {
            return string_of(chars_of(value.as_str()).as_slice());
        },
        None => {},
    }
    let t = input_type(ed);
    let tc = chars_of(t.as_str());
    if eq_lit(tc.as_slice(), "submit") {
        string_of(chars_of("Submit").as_slice())
    } else if eq_lit(tc.as_slice(), "reset") {
        string_of(chars_of("Reset").as_slice())
    } else {
        string_of(Vec::new().as_slice())
    }
}

/// The text of a subtree added to `acc`: each trimmed, non-empty text run,
/// after a space unless `acc` is empty; the subtrees of elements that show
/// nothing are left out.
pub open spec fn text_into<M>(sn: StyledNode<M>, acc: Seq<char>) -> Seq<char>
    decreases sn, 1int,
{
    match sn.node.node_type {
        NodeType::Text(t) => {
            let s = trim(t@);
            let acc2 = if s.len() == 0 {
                acc
            } else if acc.len() == 0 {
                s
            } else {
                acc + seq![' '] + s
            };
            kids_text(sn.children@, acc2)
        },
        NodeType::Element(ed) => if unpainted_tag(ed.tag_name@) {
            acc
        } else {
            kids_text(sn.children@, acc)
        },
    }
}

pub open spec fn kids_text<M>(cs: Seq<StyledNode<M>>, acc: Seq<char>) -> Seq<char>
    decreases cs, 0int,
{
    if cs.len() == 0 {
        acc
    } else {
        kids_text(cs.drop_first(), text_into(cs[0], acc))
    }
}

/// Appends the text of a styled subtree to `out`.
pub fn collect_text_nodes<M>(sn: &StyledNode<M>, out: &mut String)
    ensures
        final(out)@ == text_into(*sn, old(out)@),
    decreases sn,
{
    match &sn.node.node_type {
        NodeType::Text(t) => {
            let s = string_of(trim_str(t.as_str()).as_slice());
            if !s.as_str().is_empty() {
                if !out.as_str().is_empty() {
                    out.append(" ");
                    proof {
                        reveal_strlit(" ");
                    }
                }
                out.append(s.as_str());
            }
        },
        NodeType::Element(ed) => {
            if is_unpainted_tag(chars_of(ed.tag_name.as_str()).as_slice()) {
                return;
            }
        },
    }
    let ghost cs = sn.children@;
    let ghost start = out@;
    assert(start == match sn.node.node_type {
        NodeType::Text(t) => {
            let s = trim(t@);
            if s.len() == 0 {
                old(out)@
            } else if old(out)@.len() == 0 {
                s
            } else {
                old(out)@ + seq![' '] + s
            }
        },
        NodeType::Element(_) => old(out)@,
    });
    assert(cs.skip(0) =~= cs);
    let mut i: usize = 0;
    while i < sn.children.len()
        invariant
            0 <= i <= cs.len(),
            cs == sn.children@,
            kids_text(cs.skip(i as int), out@) == kids_text(cs, start),
        decreases cs.len() - i,
    {
        assert(cs.skip(i as int).drop_first() == cs.skip(i + 1));
        assert(cs.skip(i as int)[0] == cs[i as int]);
        collect_text_nodes(&sn.children[i], out);
        i += 1;
    }
    assert(cs.skip(cs.len() as int) =~= Seq::<StyledNode<M>>::empty());
}

} // verus!
