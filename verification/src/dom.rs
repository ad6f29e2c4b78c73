//! The document tree: text and element nodes with their attributes.
use vstd::prelude::*;

use crate::text::{chars_of, eq_chars, split_whitespace, vviews, words};

verus! {

/// Attributes of an element: each name at most once, with its value.
pub struct Attributes {
    entries: Vec<(String, String)>,
}

/// The map that a sequence of (name, value) pairs describes; a later pair
/// for the same name wins.
pub open spec fn pairs_map(s: Seq<(Seq<char>, Seq<char>)>) -> Map<Seq<char>, Seq<char>>
    decreases s.len(),
{
    if s.len() == 0 {
        Map::empty()
    } else {
        pairs_map(s.drop_last()).insert(s.last().0, s.last().1)
    }
}

pub open spec fn pair_view(e: (String, String)) -> (Seq<char>, Seq<char>) {
    (e.0@, e.1@)
}

impl Attributes {
    pub closed spec fn pairs(&self) -> Seq<(Seq<char>, Seq<char>)> {
        self.entries@.map_values(|e: (String, String)| pair_view(e))
    }

    /// No name occurs twice.
    #[verifier::type_invariant]
    closed spec fn wf(&self) -> bool {
        forall|i: int, j: int|
            0 <= i < j < self.entries@.len() ==> #[trigger] self.entries@[i].0@
                != #[trigger] self.entries@[j].0@
    }

    pub closed spec fn spec_map(&self) -> Map<Seq<char>, Seq<char>> {
        pairs_map(self.pairs())
    }

    pub fn new() -> (r: Self)
        ensures
            r@ == Map::<Seq<char>, Seq<char>>::empty(),
    {
        let r = Attributes { entries: Vec::new() };
        assert(r.pairs() =~= Seq::<(Seq<char>, Seq<char>)>::empty());
        r
    }

    /// Number of attributes.
    pub fn len(&self) -> (r: usize)
        ensures
            r == self@.dom().len(),
    {
        proof {
            use_type_invariant(self);
            self.lemma_dom_len();
        }
        self.entries.len()
    }

    proof fn lemma_dom_len(&self)
        requires
            self.wf(),
        ensures
            self@.dom().finite(),
            self@.dom().len() == self.entries@.len(),
    {
        lemma_pairs_map_dom(self.pairs());
        assert forall|i: int, j: int| 0 <= i < j < self.pairs().len() implies #[trigger] self.pairs()[i].0
            != #[trigger] self.pairs()[j].0 by {
            assert(self.entries@[i].0@ != self.entries@[j].0@);
        }
        lemma_pairs_map_dom_len(self.pairs());
    }

    fn position(&self, name: &[char]) -> (r: Option<usize>)
        ensures
            r matches Some(i) ==> i < self.entries@.len() && self.entries@[i as int].0@ == name@,
            r is None ==> forall|i: int|
                0 <= i < self.entries@.len() ==> self.entries@[i].0@ != name@,
    {
        let mut i: usize = 0;
        while i < self.entries.len()
            invariant
                i <= self.entries@.len(),
                forall|j: int| 0 <= j < i ==> self.entries@[j].0@ != name@,
            decreases self.entries@.len() - i,
        {
            let k = chars_of(self.entries[i].0.as_str());
            if eq_chars(k.as_slice(), name) {
                return Some(i);
            }
            i += 1;
        }
        None
    }

    proof fn lemma_lookup(&self, i: int)
        requires
            self.wf(),
            0 <= i < self.entries@.len(),
        ensures
            self@.contains_key(self.entries@[i].0@),
            self@[self.entries@[i].0@] == self.entries@[i].1@,
    {
        lemma_pairs_map_unique(self.pairs(), i);
        assert(self.pairs()[i] == pair_view(self.entries@[i]));
        assert forall|a: int, b: int| 0 <= a < b < self.pairs().len() implies #[trigger] self.pairs()[a].0
            != #[trigger] self.pairs()[b].0 by {
            assert(self.entries@[a].0@ != self.entries@[b].0@);
        }
    }

    proof fn lemma_absent(&self, name: Seq<char>)
        requires
            forall|i: int| 0 <= i < self.entries@.len() ==> self.entries@[i].0@ != name,
        ensures
            !self@.contains_key(name),
    {
        assert forall|i: int| 0 <= i < self.pairs().len() implies #[trigger] self.pairs()[i].0
            != name by {
            assert(self.pairs()[i] == pair_view(self.entries@[i]));
        }
        lemma_pairs_map_absent(self.pairs(), name);
    }

    /// The pairs, in the order they were first inserted.
    pub fn entries(&self) -> (r: &Vec<(String, String)>)
        ensures
            r@.map_values(|e: (String, String)| pair_view(e)) == self.pairs(),
            pairs_map(self.pairs()) == self@,
            forall|a: int, b: int|
                0 <= a < b < self.pairs().len() ==> #[trigger] self.pairs()[a].0
                    != #[trigger] self.pairs()[b].0,
    {
        proof {
            use_type_invariant(self);
            assert forall|a: int, b: int| 0 <= a < b < self.pairs().len() implies #[trigger] self.pairs()[a].0
                != #[trigger] self.pairs()[b].0 by {
                assert(self.entries@[a].0@ != self.entries@[b].0@);
            }
        }
        &self.entries
    }

    /// `HashMap::get`.
    pub fn get(&self, name: &str) -> (r: Option<&String>)
        ensures
            r matches Some(v) ==> self@.contains_key(name@) && self@[name@] == v@,
            r is None ==> !self@.contains_key(name@),
    {
        proof {
            use_type_invariant(self);
        }
        let n = chars_of(name);
        match self.position(n.as_slice()) {
            Some(i) => {
                proof {
                    self.lemma_lookup(i as int);
                }
                Some(&self.entries[i].1)
            },
            None => {
                proof {
                    self.lemma_absent(name@);
                }
                None
            },
        }
    }

    /// `HashMap::contains_key`.
    pub fn contains_key(&self, name: &str) -> (r: bool)
        ensures
            r == self@.contains_key(name@),
    {
        self.get(name).is_some()
    }

    /// `HashMap::insert`: sets `name` to `value`, replacing an earlier value.
    pub fn insert(&mut self, name: String, value: String)
        ensures
            final(self)@ == old(self)@.insert(name@, value@),
    {
        proof {
            use_type_invariant(&*self);
        }
        let n = chars_of(name.as_str());
        let pos = self.position(n.as_slice());
        let mut entries: Vec<(String, String)> = Vec::new();
        std::mem::swap(&mut entries, &mut self.entries);
        let ghost before = entries@.map_values(|e: (String, String)| pair_view(e));
        proof {
            assert forall|a: int, b: int| 0 <= a < b < before.len() implies #[trigger] before[a].0
                != #[trigger] before[b].0 by {
                assert(old(self).entries@[a].0@ != old(self).entries@[b].0@);
            }
        }
        match pos {
            Some(i) => {
                entries.set(i, (name, value));
                proof {
                    assert(entries@.map_values(|e: (String, String)| pair_view(e)) =~= before.update(i as int, (name@, value@)));
                    lemma_pairs_map_update(before, i as int, value@);
                }
            },
            None => {
                entries.push((name, value));
                proof {
                    assert(entries@.map_values(|e: (String, String)| pair_view(e)) =~= before.push((name@, value@)));
                    assert(before.push((name@, value@)).drop_last() =~= before);
                }
            },
        }
        proof {
            assert forall|a: int, b: int| 0 <= a < b < entries@.len() implies #[trigger] entries@[a].0@
                != #[trigger] entries@[b].0@ by {
                if pos is Some {
                    let i = pos->0;
                    if a != i && b != i {
                        assert(entries@[a] == old(self).entries@[a]);
                        assert(entries@[b] == old(self).entries@[b]);
                    } else if a == i {
                        assert(entries@[b] == old(self).entries@[b]);
                    } else {
                        assert(entries@[a] == old(self).entries@[a]);
                    }
                } else {
                    if b < entries@.len() - 1 {
                        assert(entries@[a] == old(self).entries@[a]);
                        assert(entries@[b] == old(self).entries@[b]);
                    } else {
                        assert(entries@[a] == old(self).entries@[a]);
                    }
                }
            }
        }
        self.entries = entries;
    }

    /// A copy with the same attributes.
    pub fn copy(&self) -> (r: Self)
        ensures
            r@ == self@,
    {
        proof {
            use_type_invariant(self);
        }
        let mut entries: Vec<(String, String)> = Vec::new();
        let mut i: usize = 0;
        while i < self.entries.len()
            invariant
                i <= self.entries@.len(),
                entries@.len() == i,
                forall|j: int| 0 <= j < i ==> pair_view(#[trigger] entries@[j]) == pair_view(
                    self.entries@[j],
                ),
            decreases self.entries@.len() - i,
        {
            let k = self.entries[i].0.clone();
            let v = self.entries[i].1.clone();
            entries.push((k, v));
            i += 1;
        }
        let r = Attributes { entries };
        assert(r.pairs() =~= self.pairs());
        assert forall|a: int, b: int| 0 <= a < b < r.entries@.len() implies #[trigger] r.entries@[a].0@
            != #[trigger] r.entries@[b].0@ by {
            assert(pair_view(r.entries@[a]) == pair_view(self.entries@[a]));
            assert(pair_view(r.entries@[b]) == pair_view(self.entries@[b]));
        }
        r
    }
}

impl View for Attributes {
    type V = Map<Seq<char>, Seq<char>>;

    open spec fn view(&self) -> Map<Seq<char>, Seq<char>> {
        self.spec_map()
    }
}

pub proof fn lemma_pairs_map_dom(s: Seq<(Seq<char>, Seq<char>)>)
    ensures
        pairs_map(s).dom().finite(),
        forall|k: Seq<char>| #[trigger]
            pairs_map(s).contains_key(k) <==> exists|i: int| 0 <= i < s.len() && s[i].0 == k,
    decreases s.len(),
{
    if s.len() > 0 {
        lemma_pairs_map_dom(s.drop_last());
        assert forall|k: Seq<char>| #[trigger]
            pairs_map(s).contains_key(k) <==> exists|i: int| 0 <= i < s.len() && s[i].0 == k by {
            if pairs_map(s).contains_key(k) && k != s.last().0 {
                let i = choose|i: int| 0 <= i < s.drop_last().len() && s.drop_last()[i].0 == k;
                assert(s[i].0 == k);
            }
            if exists|i: int| 0 <= i < s.len() && s[i].0 == k {
                let i = choose|i: int| 0 <= i < s.len() && s[i].0 == k;
                if i < s.len() - 1 {
                    assert(s.drop_last()[i].0 == k);
                }
            }
        }
    }
}

pub proof fn lemma_pairs_map_absent(s: Seq<(Seq<char>, Seq<char>)>, k: Seq<char>)
    requires
        forall|i: int| 0 <= i < s.len() ==> #[trigger] s[i].0 != k,
    ensures
        !pairs_map(s).contains_key(k),
{
    lemma_pairs_map_dom(s);
}

pub proof fn lemma_pairs_map_unique(s: Seq<(Seq<char>, Seq<char>)>, i: int)
    requires
        0 <= i < s.len(),
        forall|a: int, b: int| 0 <= a < b < s.len() ==> #[trigger] s[a].0 != #[trigger] s[b].0,
    ensures
        pairs_map(s).contains_key(s[i].0),
        pairs_map(s)[s[i].0] == s[i].1,
    decreases s.len(),
{
    if i < s.len() - 1 {
        let t = s.drop_last();
        assert forall|a: int, b: int| 0 <= a < b < t.len() implies #[trigger] t[a].0
            != #[trigger] t[b].0 by {
            assert(t[a] == s[a] && t[b] == s[b]);
        }
        lemma_pairs_map_unique(t, i);
        assert(t[i] == s[i]);
        assert(s[i].0 != s[s.len() - 1].0);
    }
}

pub proof fn lemma_pairs_map_update(s: Seq<(Seq<char>, Seq<char>)>, i: int, v: Seq<char>)
    requires
        0 <= i < s.len(),
        forall|a: int, b: int| 0 <= a < b < s.len() ==> #[trigger] s[a].0 != #[trigger] s[b].0,
    ensures
        pairs_map(s.update(i, (s[i].0, v))) == pairs_map(s).insert(s[i].0, v),
    decreases s.len(),
{
    let u = s.update(i, (s[i].0, v));
    if i == s.len() - 1 {
        assert(u.drop_last() =~= s.drop_last());
        lemma_pairs_map_dom(s.drop_last());
        assert forall|a: int| 0 <= a < s.drop_last().len() implies #[trigger] s.drop_last()[a].0
            != s[i].0 by {
            assert(s[a].0 != s[s.len() - 1].0);
        }
        lemma_pairs_map_absent(s.drop_last(), s[i].0);
        assert(pairs_map(u) =~= pairs_map(s).insert(s[i].0, v));
    } else {
        let t = s.drop_last();
        assert forall|a: int, b: int| 0 <= a < b < t.len() implies #[trigger] t[a].0
            != #[trigger] t[b].0 by {
            assert(t[a] == s[a] && t[b] == s[b]);
        }
        lemma_pairs_map_update(t, i, v);
        assert(u.drop_last() =~= t.update(i, (t[i].0, v)));
        assert(s[i].0 != s.last().0);
        assert(pairs_map(u) =~= pairs_map(s).insert(s[i].0, v));
    }
}

pub proof fn lemma_pairs_map_dom_len(s: Seq<(Seq<char>, Seq<char>)>)
    requires
        forall|a: int, b: int| 0 <= a < b < s.len() ==> #[trigger] s[a].0 != #[trigger] s[b].0,
    ensures
        pairs_map(s).dom().len() == s.len(),
    decreases s.len(),
{
    if s.len() > 0 {
        let t = s.drop_last();
        assert forall|a: int, b: int| 0 <= a < b < t.len() implies #[trigger] t[a].0
            != #[trigger] t[b].0 by {
            assert(t[a] == s[a] && t[b] == s[b]);
        }
        lemma_pairs_map_dom_len(t);
        lemma_pairs_map_dom(t);
        assert forall|a: int| 0 <= a < t.len() implies #[trigger] t[a].0 != s.last().0 by {
            assert(s[a].0 != s[s.len() - 1].0);
        }
        lemma_pairs_map_absent(t, s.last().0);
    }
}

/// What a node is: text or an element.
pub enum NodeType {
    Text(String),
    Element(ElementData),
}

/// A node of the document tree.
pub struct Node {
    pub children: Vec<Node>,
    pub node_type: NodeType,
}

/// An element: its lower-case tag name and attributes.  `href` and `alt`
/// repeat the attributes of those names.
pub struct ElementData {
    pub tag_name: String,
    pub href: Option<String>,
    pub alt: Option<String>,
    pub attributes: Attributes,
}

/// The mathematical model of a node.
pub enum DomView {
    Text(Seq<char>),
    Element(Seq<char>, Map<Seq<char>, Seq<char>>, Seq<DomView>),
}

pub open spec fn opt_view(o: Option<String>) -> Option<Seq<char>> {
    match o {
        Some(s) => Some(s@),
        None => None,
    }
}

pub open spec fn map_get(m: Map<Seq<char>, Seq<char>>, k: Seq<char>) -> Option<Seq<char>> {
    if m.contains_key(k) {
        Some(m[k])
    } else {
        None
    }
}

impl ElementData {
    /// The attributes are well formed and `href`/`alt` agree with them.
    pub open spec fn wf(&self) -> bool {
        &&& opt_view(self.href) == map_get(self.attributes@, "href"@)
        &&& opt_view(self.alt) == map_get(self.attributes@, "alt"@)
    }

    /// The value of the `id` attribute.
    pub fn id(&self) -> (r: Option<&String>)
        ensures
            r matches Some(v) ==> map_get(self.attributes@, "id"@) == Some(v@),
            r is None ==> map_get(self.attributes@, "id"@) is None,
    {
        self.attributes.get("id")
    }

    /// The white-space separated words of the `class` attribute.
    pub fn classes(&self) -> (r: Vec<Vec<char>>)
        ensures
            vviews(r@) == (if self.attributes@.contains_key("class"@) {
                words(self.attributes@["class"@])
            } else {
                Seq::empty()
            }),
    {
        match self.attributes.get("class") {
            Some(c) => {
                let v = chars_of(c.as_str());
                split_whitespace(v.as_slice())
            },
            None => {
                let r: Vec<Vec<char>> = Vec::new();
                assert(vviews(r@) =~= Seq::<Seq<char>>::empty());
                r
            },
        }
    }
}

impl Node {
    /// The model of this node and its subtree.
    pub open spec fn dv(&self) -> DomView
        decreases self,
    {
        match self.node_type {
            NodeType::Text(t) => DomView::Text(t@),
            NodeType::Element(e) => DomView::Element(e.tag_name@, e.attributes@, dvs(self.children@)),
        }
    }

    /// Every element of the subtree is well formed and text nodes have no
    /// children.
    pub open spec fn wf(&self) -> bool
        decreases self,
    {
        &&& (match self.node_type {
            NodeType::Text(_) => self.children@.len() == 0,
            NodeType::Element(e) => e.wf(),
        })
        &&& forall|i: int| 0 <= i < self.children@.len() ==> (#[trigger] self.children@[i]).wf()
    }
}

impl ElementData {
    /// A copy of the element.
    pub fn copy(&self) -> (r: ElementData)
        ensures
            r.tag_name@ == self.tag_name@,
            r.attributes@ == self.attributes@,
            opt_view(r.href) == opt_view(self.href),
            opt_view(r.alt) == opt_view(self.alt),
    {
        let href = match &self.href {
            Some(h) => Some(h.clone()),
            None => None,
        };
        let alt = match &self.alt {
            Some(a) => Some(a.clone()),
            None => None,
        };
        ElementData { tag_name: self.tag_name.clone(), href, alt, attributes: self.attributes.copy() }
    }
}

impl Node {
    /// A copy of the subtree.
    pub fn copy(&self) -> (r: Node)
        ensures
            r.dv() == self.dv(),
            self.wf() ==> r.wf(),
        decreases self,
    {
        let mut children: Vec<Node> = Vec::new();
        let mut i: usize = 0;
        while i < self.children.len()
            invariant
                i <= self.children@.len(),
                children@.len() == i,
                forall|j: int| 0 <= j < i ==> (#[trigger] children@[j]).dv() == self.children@[j].dv(),
                forall|j: int| 0 <= j < i ==> self.children@[j].wf() ==> (#[trigger] children@[j]).wf(),
            decreases self.children@.len() - i,
        {
            let c = self.children[i].copy();
            children.push(c);
            i += 1;
        }
        let node_type = match &self.node_type {
            NodeType::Text(t) => NodeType::Text(t.clone()),
            NodeType::Element(e) => NodeType::Element(e.copy()),
        };
        let r = Node { children, node_type };
        assert(dvs(r.children@) =~= dvs(self.children@));
        r
    }
}

/// The models of a list of nodes.
pub open spec fn dvs(s: Seq<Node>) -> Seq<DomView>
    decreases s,
{
    Seq::new(s.len(), |i: int| if 0 <= i < s.len() { s[i].dv() } else { DomView::Text(Seq::empty()) })
}

/// Every node of a list is well formed.
pub open spec fn all_wf(s: Seq<Node>) -> bool {
    forall|i: int| 0 <= i < s.len() ==> (#[trigger] s[i]).wf()
}

/// A text node.
pub fn text(data: String) -> (r: Node)
    ensures
        r.dv() == DomView::Text(data@),
        r.wf(),
{
    let r = Node { children: Vec::new(), node_type: NodeType::Text(data) };
    r
}

/// An element node; `href` and `alt` are taken from the attributes.
pub fn elem(name: String, attrs: Attributes, children: Vec<Node>) -> (r: Node)
    requires
        forall|i: int| 0 <= i < children@.len() ==> (#[trigger] children@[i]).wf(),
    ensures
        r.wf(),
        r.children@ == children@,
        r.node_type matches NodeType::Element(e) && e.tag_name@ == name@ && e.attributes@
            == attrs@,
        r.dv() == DomView::Element(name@, attrs@, dvs(children@)),
{
    let href = match attrs.get("href") {
        Some(h) => Some(h.clone()),
        None => None,
    };
    let alt = match attrs.get("alt") {
        Some(a) => Some(a.clone()),
        None => None,
    };
    Node {
        children,
        node_type: NodeType::Element(ElementData { tag_name: name, href, alt, attributes: attrs }),
    }
}

} // verus!
