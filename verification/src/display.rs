//! The painting order of stacking contexts: the boxes of child stacking
//! contexts with a negative `z-index` are painted first, then the normal
//! flow, then the contexts at `z-index` 0 and then the positive ones; the
//! contexts are taken by level and, within a level, in the order in which
//! they were found.  What is painted (the display items) is left generic.
use vstd::prelude::*;
use vstd::seq_lib::to_multiset_insert;
use vstd::seq_lib::to_multiset_build;
use vstd::multiset::Multiset;

verus! {

/// The items of a child stacking context, its `z-index` level and the
/// order in which it was found.
pub struct StackingContextPaint<T> {
    pub level: i32,
    pub order: usize,
    pub items: Vec<T>,
}

/// What a stacking context collects from its subtree: the items painted
/// in the normal flow and its child stacking contexts.
pub struct StackingContextCollector<T> {
    pub normal_items: Vec<T>,
    pub child_contexts: Vec<StackingContextPaint<T>>,
    pub next_order: usize,
}

/// The model of a child context: level, order and items.
pub type CtxView<T> = (i32, usize, Seq<T>);

pub open spec fn ctx_view<T>(c: StackingContextPaint<T>) -> CtxView<T> {
    (c.level, c.order, c.items@)
}

pub open spec fn ctxs_view<T>(v: Seq<StackingContextPaint<T>>) -> Seq<CtxView<T>> {
    v.map_values(|c: StackingContextPaint<T>| ctx_view(c))
}

/// `a` comes no later than `b`: a lower level, or the same level and an
/// order no later.
pub open spec fn key_le<T>(a: CtxView<T>, b: CtxView<T>) -> bool {
    a.0 < b.0 || (a.0 == b.0 && a.1 <= b.1)
}

/// Where `x` goes in `s`: after the leading contexts that come no later
/// than it.
pub open spec fn ins_pos<T>(s: Seq<CtxView<T>>, x: CtxView<T>) -> nat
    decreases s.len(),
{
    if s.len() > 0 && key_le(s[0], x) {
        1 + ins_pos(s.drop_first(), x)
    } else {
        0
    }
}

/// The contexts ordered by level and order; contexts with equal keys keep
/// the order they had.
pub open spec fn sort_ctx<T>(cs: Seq<CtxView<T>>) -> Seq<CtxView<T>>
    decreases cs.len(),
{
    if cs.len() == 0 {
        Seq::empty()
    } else {
        let r = sort_ctx(cs.drop_last());
        r.insert(ins_pos(r, cs.last()) as int, cs.last())
    }
}

/// Which layer a level paints in: below the flow, at 0, above.
pub open spec fn layer_of(level: i32) -> int {
    if level < 0 {
        -1
    } else if level == 0 {
        0
    } else {
        1
    }
}

/// The items of the contexts in layer `g`, in the order of `cs`.
pub open spec fn layer_items<T>(cs: Seq<CtxView<T>>, g: int) -> Seq<T>
    decreases cs.len(),
{
    if cs.len() == 0 {
        Seq::empty()
    } else {
        layer_items(cs.drop_last(), g) + if layer_of(cs.last().0) == g {
            cs.last().2
        } else {
            Seq::empty()
        }
    }
}

/// The painting order: the negative contexts, the normal flow, the
/// contexts at level 0, the positive contexts; contexts by level, then
/// order.
pub open spec fn paint_order<T>(cs: Seq<CtxView<T>>, normal: Seq<T>) -> Seq<T> {
    let s = sort_ctx(cs);
    layer_items(s, -1) + normal + layer_items(s, 0) + layer_items(s, 1)
}

pub open spec fn key_sorted<T>(s: Seq<CtxView<T>>) -> bool {
    forall|i: int, j: int| 0 <= i < j < s.len() ==> key_le(#[trigger] s[i], #[trigger] s[j])
}

proof fn lemma_ins_pos<T>(s: Seq<CtxView<T>>, x: CtxView<T>)
    requires
        key_sorted(s),
    ensures
        ins_pos(s, x) <= s.len(),
        forall|i: int| 0 <= i < ins_pos(s, x) ==> key_le(#[trigger] s[i], x),
        forall|i: int| ins_pos(s, x) <= i < s.len() ==> !key_le(#[trigger] s[i], x),
    decreases s.len(),
{
    if s.len() > 0 {
        let t = s.drop_first();
        assert(key_sorted(t)) by {
            assert forall|i: int, j: int| 0 <= i < j < t.len() implies key_le(#[trigger] t[i], #[trigger] t[j]) by {
                assert(t[i] == s[i + 1] && t[j] == s[j + 1]);
            }
        }
        lemma_ins_pos(t, x);
        if key_le(s[0], x) {
            assert forall|i: int| 0 <= i < ins_pos(s, x) implies key_le(#[trigger] s[i], x) by {
                if i > 0 {
                    assert(s[i] == t[i - 1]);
                }
            }
            assert forall|i: int| ins_pos(s, x) <= i < s.len() implies !key_le(#[trigger] s[i], x) by {
                assert(s[i] == t[i - 1]);
            }
        } else {
            assert forall|i: int| 0 <= i < s.len() implies !key_le(#[trigger] s[i], x) by {
                if i > 0 {
                    assert(key_le(s[0], s[i]));
                }
            }
        }
    }
}

/// The contexts come out ordered by level and then by order, and each
/// context is kept exactly as often as it was there.
pub proof fn lemma_sort_ctx<T>(cs: Seq<CtxView<T>>)
    ensures
        key_sorted(sort_ctx(cs)),
        sort_ctx(cs).to_multiset() == cs.to_multiset(),
        sort_ctx(cs).len() == cs.len(),
    decreases cs.len(),
{
    broadcast use vstd::multiset::group_multiset_axioms;
    if cs.len() == 0 {
        assert(cs.to_multiset() =~= Multiset::<CtxView<T>>::empty()) by {
            broadcast use vstd::seq_lib::group_to_multiset_ensures;
        }
        assert(sort_ctx(cs).to_multiset() =~= Multiset::<CtxView<T>>::empty()) by {
            broadcast use vstd::seq_lib::group_to_multiset_ensures;
        }
    } else {
        let t = cs.drop_last();
        let x = cs.last();
        lemma_sort_ctx(t);
        let r = sort_ctx(t);
        lemma_ins_pos(r, x);
        let p = ins_pos(r, x) as int;
        let u = r.insert(p, x);
        assert forall|i: int, j: int| 0 <= i < j < u.len() implies key_le(#[trigger] u[i], #[trigger] u[j]) by {
            if j < p {
                assert(u[i] == r[i] && u[j] == r[j]);
            } else if j == p {
                assert(u[i] == r[i]);
            } else if i < p {
                assert(u[i] == r[i] && u[j] == r[j - 1]);
                assert(key_le(r[i], x));
                assert(!key_le(r[j - 1], x));
            } else if i == p {
                assert(u[j] == r[j - 1]);
                assert(!key_le(r[j - 1], x));
            } else {
                assert(u[i] == r[i - 1] && u[j] == r[j - 1]);
            }
        }
        to_multiset_insert(r, p, x);
        assert(cs == t.push(x));
        to_multiset_build(t, x);
    }
}

impl<T> StackingContextCollector<T> {
    /// A collector with nothing collected.
    pub fn new() -> (r: Self)
        ensures
            r.normal_items@.len() == 0,
            r.child_contexts@.len() == 0,
            r.next_order == 0,
    {
        StackingContextCollector { normal_items: Vec::new(), child_contexts: Vec::new(), next_order: 0 }
    }

    /// The order of the next child context found.
    pub fn take_order(&mut self) -> (r: usize)
        requires
            old(self).next_order < usize::MAX,
        ensures
            r == old(self).next_order,
            final(self).next_order == old(self).next_order + 1,
            final(self).normal_items == old(self).normal_items,
            final(self).child_contexts == old(self).child_contexts,
    {
        let order = self.next_order;
        self.next_order += 1;
        order
    }
}

proof fn lemma_view_remove_first<T>(v: Seq<StackingContextPaint<T>>)
    requires
        v.len() > 0,
    ensures
        ctxs_view(v)[0] == ctx_view(v[0]),
        ctxs_view(v.remove(0)) == ctxs_view(v).drop_first(),
{
    assert(ctxs_view(v.remove(0)) =~= ctxs_view(v).drop_first());
}

/// Sorts the contexts by level, then order, keeping contexts with equal
/// keys in the order they had.
fn sort_contexts<T>(contexts: Vec<StackingContextPaint<T>>) -> (r: Vec<StackingContextPaint<T>>)
    ensures
        ctxs_view(r@) == sort_ctx(ctxs_view(contexts@)),
{
    let ghost cs = ctxs_view(contexts@);
    let n: usize = contexts.len();
    let mut rest = contexts;
    let mut sorted: Vec<StackingContextPaint<T>> = Vec::new();
    let mut i: usize = 0;
    assert(cs.skip(0) =~= cs);
    assert(ctxs_view(sorted@) =~= sort_ctx(cs.take(0)));
    while rest.len() > 0
        invariant
            i <= cs.len(),
            cs.len() == n,
            ctxs_view(rest@) == cs.skip(i as int),
            ctxs_view(sorted@) == sort_ctx(cs.take(i as int)),
        decreases rest@.len(),
    {
        let ghost before = rest@;
        proof {
            lemma_view_remove_first(before);
            assert(cs.skip(i as int)[0] == cs[i as int]);
            assert(cs.skip(i as int).drop_first() =~= cs.skip(i + 1));
        }
        let c = rest.remove(0);
        let ghost sv = ctxs_view(sorted@);
        let ghost x = ctx_view(c);
        proof {
            lemma_sort_ctx(cs.take(i as int));
        }
        let mut p: usize = 0;
        assert(sv.skip(0) =~= sv);
        while p < sorted.len() && (sorted[p].level < c.level || (sorted[p].level == c.level && sorted[p].order
            <= c.order))
            invariant
                p <= sorted@.len(),
                sv == ctxs_view(sorted@),
                x == ctx_view(c),
                ins_pos(sv, x) == p + ins_pos(sv.skip(p as int), x),
            decreases sorted@.len() - p,
        {
            assert(sv.skip(p as int)[0] == sv[p as int]);
            assert(sv.skip(p as int).drop_first() =~= sv.skip(p + 1));
            p += 1;
        }
        proof {
            if p < sorted@.len() {
                assert(sv.skip(p as int)[0] == sv[p as int]);
            } else {
                assert(sv.skip(p as int).len() == 0);
            }
        }
        sorted.insert(p, c);
        assert(ctxs_view(sorted@) =~= sv.insert(p as int, x));
        assert(cs.take(i + 1).drop_last() =~= cs.take(i as int));
        assert(cs.take(i + 1).last() == x);
        i += 1;
    }
    assert(cs.take(i as int) =~= cs);
    sorted
}

/// Appends the collected items in painting order: the contexts with a
/// negative `z-index`, the normal flow, the contexts at 0, then the
/// positive ones.
pub fn append_collected_layers<T>(out: &mut Vec<T>, collector: StackingContextCollector<T>)
    ensures
        final(out)@ == old(out)@ + paint_order(ctxs_view(collector.child_contexts@), collector.normal_items@),
{
    let ghost normal = collector.normal_items@;
    let mut normal_items = collector.normal_items;
    let mut sorted = sort_contexts(collector.child_contexts);
    let ghost s = ctxs_view(sorted@);
    let n: usize = sorted.len();
    let mut below: Vec<T> = Vec::new();
    let mut zero: Vec<T> = Vec::new();
    let mut above: Vec<T> = Vec::new();
    let mut i: usize = 0;
    assert(s.skip(0) =~= s);
    while sorted.len() > 0
        invariant
            i <= s.len(),
            s.len() == n,
            ctxs_view(sorted@) == s.skip(i as int),
            below@ == layer_items(s.take(i as int), -1),
            zero@ == layer_items(s.take(i as int), 0),
            above@ == layer_items(s.take(i as int), 1),
        decreases sorted@.len(),
    {
        let ghost before = sorted@;
        proof {
            lemma_view_remove_first(before);
            assert(s.skip(i as int)[0] == s[i as int]);
            assert(s.skip(i as int).drop_first() =~= s.skip(i + 1));
        }
        let c = sorted.remove(0);
        let ghost t = s.take(i + 1);
        assert(t.drop_last() =~= s.take(i as int));
        assert(t.last() == ctx_view(c));
        let mut items = c.items;
        if c.level < 0 {
            below.append(&mut items);
            assert(zero@ =~= layer_items(t, 0));
            assert(above@ =~= layer_items(t, 1));
        } else if c.level == 0 {
            zero.append(&mut items);
            assert(below@ =~= layer_items(t, -1));
            assert(above@ =~= layer_items(t, 1));
        } else {
            above.append(&mut items);
            assert(below@ =~= layer_items(t, -1));
            assert(zero@ =~= layer_items(t, 0));
        }
        i += 1;
    }
    assert(s.take(i as int) =~= s);
    out.append(&mut below);
    out.append(&mut normal_items);
    out.append(&mut zero);
    out.append(&mut above);
}

} // verus!
