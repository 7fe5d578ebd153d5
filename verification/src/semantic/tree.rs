//! The syntax tree the semantic layer reads.
//!
//! The org grammar produces a concrete syntax tree; the semantic layer only
//! needs each node's kind (for the handful of kinds it inspects), the field
//! name it hangs under in its parent, whether it is a named node, its byte
//! range in the source, and its children in order. [`SyntaxNode`] holds
//! exactly that.
use vstd::prelude::*;

verus! {

/// The node kinds the semantic layer distinguishes.
#[derive(Debug, Clone, Copy, PartialEq, Eq, Structural)]
pub enum NodeKind {
    /// The root `document`.
    Document,
    /// A `section`: a headline with its body and subsections.
    Section,
    /// A `headline` line.
    Headline,
    /// The leading `stars` of a headline.
    Stars,
    /// The headline `item` text.
    Item,
    /// A trailing `tag_list`.
    TagList,
    /// One `tag`.
    Tag,
    /// A planning line (`plan`).
    Plan,
    /// A planning `entry` (`SCHEDULED: <…>`).
    Entry,
    /// A `timestamp`.
    Timestamp,
    /// A `property_drawer`.
    PropertyDrawer,
    /// One `property` line.
    Property,
    /// A generic `drawer`.
    Drawer,
    /// A `#+NAME: value` `directive`.
    Directive,
    /// Any other kind.
    Other,
}

/// The field names the semantic layer looks children up by.
#[derive(Debug, Clone, Copy, PartialEq, Eq, Structural)]
pub enum FieldName {
    /// `headline`
    Headline,
    /// `stars`
    Stars,
    /// `item`
    Item,
    /// `tags`
    Tags,
    /// `tag`
    Tag,
    /// `plan`
    Plan,
    /// `name`
    Name,
    /// `timestamp`
    Timestamp,
    /// `property_drawer`
    PropertyDrawer,
    /// `value`
    Value,
    /// `body`
    Body,
    /// `contents`
    Contents,
    /// `subsection`
    Subsection,
    /// Any other field.
    Other,
}

/// One node of the syntax tree.
#[derive(Debug)]
pub struct SyntaxNode {
    /// The node's kind.
    pub kind: NodeKind,
    /// The field this node hangs under in its parent, if any.
    pub field: Option<FieldName>,
    /// Whether the node is a named (non-anonymous) node.
    pub named: bool,
    /// Start byte in the source.
    pub start: usize,
    /// End byte (exclusive) in the source.
    pub end: usize,
    /// Children in source order.
    pub children: Vec<SyntaxNode>,
}

impl SyntaxNode {
    /// Every node's range lies inside its parent's and inside a source of
    /// `len` bytes.
    pub open spec fn wf(self, len: int) -> bool
        decreases self,
    {
        &&& self.start <= self.end <= len
        &&& forall|i: int|
            0 <= i < self.children@.len() ==> {
                &&& self.start <= (#[trigger] self.children@[i]).start
                &&& self.children@[i].end <= self.end
                &&& self.children@[i].wf(len)
            }
    }
}

impl SyntaxNode {
    /// Whether every node's range lies inside its parent's and inside a
    /// source of `len` bytes: the tree a caller may hand to the semantic
    /// layer.
    pub fn is_well_formed(&self, len: usize) -> (r: bool)
        ensures
            r == self.wf(len as int),
        decreases self,
    {
        if !(self.start <= self.end && self.end <= len) {
            return false;
        }
        let mut i: usize = 0;
        while i < self.children.len()
            invariant
                i <= self.children@.len(),
                self.start <= self.end <= len,
                forall|j: int|
                    0 <= j < i ==> {
                        &&& self.start <= (#[trigger] self.children@[j]).start
                        &&& self.children@[j].end <= self.end
                        &&& self.children@[j].wf(len as int)
                    },
            decreases self.children@.len() - i,
        {
            let c = &self.children[i];
            proof {
                assert(decreases_to!(*self => self.children@));
                assert(decreases_to!(self.children@ => self.children@[i as int]));
            }
            if !(self.start <= c.start && c.end <= self.end && c.is_well_formed(len)) {
                return false;
            }
            i = i + 1;
        }
        true
    }
}

/// Index of the first node in `cs` at or after `i` that hangs under field
/// `f`, or `cs.len()` when none.
pub open spec fn first_with_field(cs: Seq<SyntaxNode>, f: FieldName, i: int) -> int
    decreases cs.len() - i,
{
    if i < 0 || i >= cs.len() {
        cs.len() as int
    } else if cs[i].field == Some(f) {
        i
    } else {
        first_with_field(cs, f, i + 1)
    }
}

pub proof fn lemma_first_with_field(cs: Seq<SyntaxNode>, f: FieldName, i: int)
    requires
        0 <= i <= cs.len(),
    ensures
        i <= first_with_field(cs, f, i) <= cs.len(),
        first_with_field(cs, f, i) < cs.len() ==> cs[first_with_field(cs, f, i)].field == Some(f),
        forall|j: int| i <= j < first_with_field(cs, f, i) ==> cs[j].field != Some(f),
    decreases cs.len() - i,
{
    if i < cs.len() && cs[i].field != Some(f) {
        lemma_first_with_field(cs, f, i + 1);
    }
}

/// The child of `n` under field `f` (the first such), if any.
pub open spec fn field_child(n: SyntaxNode, f: FieldName) -> Option<SyntaxNode> {
    let k = first_with_field(n.children@, f, 0);
    if k < n.children@.len() {
        Some(n.children@[k])
    } else {
        None
    }
}

/// The nodes of `cs` under field `f`, in order.
pub open spec fn with_field(cs: Seq<SyntaxNode>, f: FieldName) -> Seq<SyntaxNode> {
    cs.filter(|c: SyntaxNode| c.field == Some(f))
}

/// The named nodes of `cs` of kind `k`, in order.
pub open spec fn named_of_kind(cs: Seq<SyntaxNode>, k: NodeKind) -> Seq<SyntaxNode> {
    cs.filter(|c: SyntaxNode| c.named && c.kind == k)
}

/// Whether a node is named.
pub open spec fn is_named() -> spec_fn(SyntaxNode) -> bool {
    |c: SyntaxNode| c.named
}

/// The first named node of `cs`, if any.
pub open spec fn first_named(cs: Seq<SyntaxNode>) -> Option<SyntaxNode> {
    let named = cs.filter(is_named());
    if named.len() > 0 {
        Some(named[0])
    } else {
        None
    }
}

impl SyntaxNode {
    /// The child under field `f` (tree-sitter's `child_by_field_name`).
    pub fn child_by_field(&self, f: FieldName) -> (r: Option<&SyntaxNode>)
        ensures
            match field_child(*self, f) {
                Some(c) => r == Some(&c),
                None => r is None,
            },
            r matches Some(c) ==> exists|i: int|
                0 <= i < self.children@.len() && self.children@[i] == *c,
    {
        let mut i: usize = 0;
        while i < self.children.len()
            invariant
                i <= self.children@.len(),
                first_with_field(self.children@, f, 0) == first_with_field(
                    self.children@,
                    f,
                    i as int,
                ),
            decreases self.children@.len() - i,
        {
            if self.children[i].field == Some(f) {
                return Some(&self.children[i]);
            }
            i = i + 1;
        }
        None
    }

    /// The first named child (tree-sitter's `named_child(0)`).
    pub fn first_named_child(&self) -> (r: Option<&SyntaxNode>)
        ensures
            match first_named(self.children@) {
                Some(c) => r == Some(&c),
                None => r is None,
            },
            r matches Some(c) ==> exists|i: int|
                0 <= i < self.children@.len() && self.children@[i] == *c,
    {
        let mut i: usize = 0;
        proof {
            assert(self.children@.take(0).filter(is_named()) =~= seq![]);
        }
        while i < self.children.len()
            invariant
                i <= self.children@.len(),
                self.children@.take(i as int).filter(is_named()).len() == 0,
            decreases self.children@.len() - i,
        {
            proof {
                let cs = self.children@;
                assert(cs.take(i + 1).drop_last() =~= cs.take(i as int));
                cs.take(i as int).lemma_filter_push(cs[i as int], is_named());
                assert(cs.take(i as int).push(cs[i as int]) =~= cs.take(i + 1));
            }
            if self.children[i].named {
                proof {
                    let cs = self.children@;
                    let tk = cs.take(i as int).filter(is_named());
                    assert(tk =~= Seq::<SyntaxNode>::empty());
                    assert(cs.take(i + 1).filter(is_named()) == tk.push(cs[i as int]));
                    lemma_filter_prefix(cs, is_named(), i + 1);
                    assert(cs.take(i + 1).filter(is_named())[0] == cs[i as int]);
                    assert(cs.filter(is_named())[0] == cs[i as int]);
                }
                return Some(&self.children[i]);
            }
            i = i + 1;
        }
        proof {
            assert(self.children@.take(i as int) =~= self.children@);
        }
        None
    }
}

/// Filtering a prefix of `s` gives a prefix of filtering `s`.
pub proof fn lemma_filter_prefix<A>(s: Seq<A>, p: spec_fn(A) -> bool, k: int)
    requires
        0 <= k <= s.len(),
    ensures
        s.take(k).filter(p).len() <= s.filter(p).len(),
        forall|j: int|
            0 <= j < s.take(k).filter(p).len() ==> #[trigger] s.take(k).filter(p)[j] == s.filter(
                p,
            )[j],
    decreases s.len() - k,
{
    if k < s.len() {
        lemma_filter_prefix(s, p, k + 1);
        assert(s.take(k).push(s[k]) =~= s.take(k + 1));
        s.take(k).lemma_filter_push(s[k], p);
        let a = s.take(k).filter(p);
        let b = s.take(k + 1).filter(p);
        assert forall|j: int| 0 <= j < a.len() implies #[trigger] a[j] == s.filter(p)[j] by {
            assert(a[j] == b[j]);
            assert(b[j] == s.filter(p)[j]);
        }
    } else {
        assert(s.take(k) =~= s);
    }
}

} // verus!
