//! A document tree, and the lookups that the extractor makes in it.
use crate::tags::{tag_name, Tag};
use vstd::prelude::*;

verus! {

/// An element of a document: its tag name without namespace, its text, and
/// its child elements in order.
#[derive(Debug)]
pub struct Node {
    pub name: String,
    pub text: String,
    pub children: Vec<Node>,
}

/// The characters of a string, one by one.
pub fn chars_of(s: &str) -> (r: Vec<char>)
    ensures
        r@ == s@,
{
    let mut r: Vec<char> = Vec::new();
    for c in it: s.chars()
        invariant
            r@ == it.seq().subrange(0, it.index() as int),
            it.seq() == s@,
    {
        r.push(c);
    }
    r
}

/// Whether a node carries tag `t`.
pub open spec fn has_tag(n: Node, t: Tag) -> bool {
    n.name@ == tag_name(t)
}

/// The first node of `cs`, from position `i` on, that carries tag `t`.
pub open spec fn first_tagged_from(cs: Seq<Node>, t: Tag, i: int) -> Option<Node>
    decreases cs.len() - i,
{
    if i < 0 || i >= cs.len() {
        None
    } else if has_tag(cs[i], t) {
        Some(cs[i])
    } else {
        first_tagged_from(cs, t, i + 1)
    }
}

/// The node that `path` leads to from `n`, taking at each hop the first
/// child with the next tag; `None` where a hop is missing.
pub open spec fn descendant(n: Node, path: Seq<Tag>) -> Option<Node>
    decreases path.len(),
{
    if path.len() == 0 {
        Some(n)
    } else {
        match first_tagged_from(n.children@, path[0], 0) {
            Some(c) => descendant(c, path.drop_first()),
            None => None,
        }
    }
}

/// The text of the node that `path` leads to from `n`.
pub open spec fn descendant_text(n: Node, path: Seq<Tag>) -> Option<Seq<char>> {
    match descendant(n, path) {
        Some(c) => Some(c.text@),
        None => None,
    }
}

/// The nodes of `cs` that carry tag `t`, in order.
pub open spec fn tagged(cs: Seq<Node>, t: Tag) -> Seq<Node>
    decreases cs.len(),
{
    if cs.len() == 0 {
        Seq::empty()
    } else if has_tag(cs.last(), t) {
        tagged(cs.drop_last(), t).push(cs.last())
    } else {
        tagged(cs.drop_last(), t)
    }
}

/// The children that carry tag `t` of all nodes of `ns`, in document order.
pub open spec fn select(ns: Seq<Node>, t: Tag) -> Seq<Node>
    decreases ns.len(),
{
    if ns.len() == 0 {
        Seq::empty()
    } else {
        select(ns.drop_last(), t) + tagged(ns.last().children@, t)
    }
}

/// The sample nodes of a document, in document order: the `Trackpoint`s of
/// the `Track`s of the `Lap`s of the `Activity`s of the `Activities` under
/// the root.
pub open spec fn sample_nodes(root: Node) -> Seq<Node> {
    select(
        select(
            select(select(select(seq![root], Tag::Activities), Tag::Activity), Tag::Lap),
            Tag::Track,
        ),
        Tag::Trackpoint,
    )
}

pub open spec fn derefs(ns: Seq<&Node>) -> Seq<Node> {
    ns.map_values(|r: &Node| *r)
}

/// A document element that the extractor can read.
pub trait TcxElement {
    /// The tag name of this element.
    spec fn name_of(&self) -> Seq<char>;

    /// The text at the end of `path`, where every hop of it is present.
    spec fn text_at(&self, path: Seq<Tag>) -> Option<Seq<char>>;

    /// Whether this element carries `tag`.
    fn is_tag(&self, tag: Tag) -> (r: bool)
        ensures
            r == (self.name_of() == tag_name(tag));

    /// The text at the end of the path `tags`, or `None` where a hop is
    /// missing.
    fn child_value(&self, tags: &[Tag]) -> (r: Option<String>)
        ensures
            match r {
                Some(s) => self.text_at(tags@) == Some(s@),
                None => self.text_at(tags@) is None,
            };
}

impl Node {
    /// The first child that carries `tag`.
    pub fn get_child(&self, tag: Tag) -> (r: Option<&Node>)
        ensures
            match r {
                Some(c) => first_tagged_from(self.children@, tag, 0) == Some(*c),
                None => first_tagged_from(self.children@, tag, 0) is None,
            },
    {
        let mut i: usize = 0;
        while i < self.children.len()
            invariant
                i <= self.children@.len(),
                first_tagged_from(self.children@, tag, 0) == first_tagged_from(
                    self.children@,
                    tag,
                    i as int,
                ),
            decreases self.children@.len() - i,
        {
            if self.children[i].is_tag(tag) {
                return Some(&self.children[i]);
            }
            i = i + 1;
        }
        None
    }

    /// The node that the path `tags` leads to.
    pub fn descend(&self, tags: &[Tag]) -> (r: Option<&Node>)
        ensures
            match r {
                Some(c) => descendant(*self, tags@) == Some(*c),
                None => descendant(*self, tags@) is None,
            },
    {
        let mut e: &Node = self;
        let mut i: usize = 0;
        assert(tags@.subrange(0, tags@.len() as int) =~= tags@);
        while i < tags.len()
            invariant
                i <= tags@.len(),
                descendant(*self, tags@) == descendant(*e, tags@.subrange(i as int, tags@.len() as int)),
            decreases tags@.len() - i,
        {
            let ghost rest = tags@.subrange(i as int, tags@.len() as int);
            assert(rest.drop_first() =~= tags@.subrange(i + 1, tags@.len() as int));
            match e.get_child(tags[i]) {
                Some(c) => {
                    e = c;
                },
                None => {
                    return None;
                },
            }
            i = i + 1;
        }
        assert(tags@.subrange(i as int, tags@.len() as int).len() == 0);
        Some(e)
    }

    /// The children of all `nodes` that carry `tag`, in document order.
    pub fn select<'a>(nodes: &Vec<&'a Node>, tag: Tag) -> (r: Vec<&'a Node>)
        ensures
            derefs(r@) == select(derefs(nodes@), tag),
    {
        let mut r: Vec<&'a Node> = Vec::new();
        let mut i: usize = 0;
        while i < nodes.len()
            invariant
                i <= nodes@.len(),
                derefs(r@) == select(derefs(nodes@.subrange(0, i as int)), tag),
            decreases nodes@.len() - i,
        {
            let n: &'a Node = nodes[i];
            let ghost before = r@;
            let mut j: usize = 0;
            while j < n.children.len()
                invariant
                    j <= n.children@.len(),
                    derefs(r@) == derefs(before) + tagged(n.children@.subrange(0, j as int), tag),
                decreases n.children@.len() - j,
            {
                let ghost mid = r@;
                let c: &'a Node = &n.children[j];
                let keep = c.is_tag(tag);
                if keep {
                    r.push(c);
                    assert(derefs(r@) =~= derefs(mid).push(*c));
                } else {
                    assert(derefs(r@) =~= derefs(mid));
                }
                proof {
                    let cs = n.children@.subrange(0, j + 1);
                    assert(cs.drop_last() =~= n.children@.subrange(0, j as int));
                    assert(cs.last() == *c);
                    assert(keep == has_tag(*c, tag));
                    assert(derefs(r@) =~= derefs(before) + tagged(cs, tag));
                }
                j = j + 1;
            }
            proof {
                let ns = nodes@.subrange(0, i + 1);
                assert(n.children@.subrange(0, n.children@.len() as int) =~= n.children@);
                assert(derefs(ns).drop_last() =~= derefs(nodes@.subrange(0, i as int)));
                assert(derefs(ns).last() == *n);
            }
            i = i + 1;
        }
        assert(nodes@.subrange(0, nodes@.len() as int) =~= nodes@);
        r
    }
}

impl TcxElement for Node {
    open spec fn name_of(&self) -> Seq<char> {
        self.name@
    }

    open spec fn text_at(&self, path: Seq<Tag>) -> Option<Seq<char>> {
        descendant_text(*self, path)
    }

    fn is_tag(&self, tag: Tag) -> (r: bool) {
        let want: String = tag.as_ref().to_owned();
        self.name == want
    }

    fn child_value(&self, tags: &[Tag]) -> (r: Option<String>) {
        match self.descend(tags) {
            Some(c) => Some(c.text.clone()),
            None => None,
        }
    }
}

} // verus!
