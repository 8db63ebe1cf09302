//! Syntax trees with change metadata.
//!
//! All nodes of one diff live in an [`Arena`] and refer to each other by
//! index. A node's payload is fixed when it is built; the metadata that
//! later passes compute lives in a separate table of the arena.
use vstd::prelude::*;
use crate::positions::{LineNumber, SingleLineSpan};

verus! {

/// How a node relates to the other side of the diff. Nodes are named by
/// their index in the arena.
#[derive(Clone, Copy, Debug, PartialEq, Eq, Structural)]
pub enum ChangeKind {
    /// Matched with the given node on the other side.
    Unchanged(usize),
    /// A comment (the first node) whose text was revised into the second.
    ReplacedComment(usize, usize),
    /// Present on one side only.
    Novel,
}

/// Fields that are common to both lists and atoms, filled in after the
/// trees are built.
#[derive(Clone, Copy, Debug, PartialEq, Eq, Structural)]
pub struct SyntaxInfo {
    pub next: Option<usize>,
    pub prev: Option<usize>,
    pub parent: Option<usize>,
    pub prev_is_contiguous: bool,
    pub change: Option<ChangeKind>,
    pub num_ancestors: u32,
    pub unique_id: u32,
    pub content_id: u32,
}

impl SyntaxInfo {
    /// Metadata before any pass has run.
    pub open spec fn initial() -> SyntaxInfo {
        SyntaxInfo {
            next: None,
            prev: None,
            parent: None,
            prev_is_contiguous: false,
            change: None,
            num_ancestors: 0,
            unique_id: 0,
            content_id: 0,
        }
    }

    pub fn new() -> (r: Self)
        ensures
            r == SyntaxInfo::initial(),
    {
        SyntaxInfo {
            next: None,
            prev: None,
            parent: None,
            prev_is_contiguous: false,
            change: None,
            num_ancestors: 0,
            unique_id: 0,
            content_id: 0,
        }
    }
}

#[derive(Clone, Copy, Debug, PartialEq, Eq, Hash, Structural)]
pub enum AtomKind {
    Normal,
    Comment,
    Keyword,
}

/// Unlike atoms, tokens can be delimiters like `{`.
#[derive(Clone, Copy, Debug, PartialEq, Eq, Structural)]
pub enum TokenKind {
    Delimiter,
    Atom(AtomKind),
}

/// A syntax node: a delimited list of children, or a leaf.
#[derive(Debug)]
pub enum Syntax {
    List {
        open_position: Vec<SingleLineSpan>,
        open_content: String,
        children: Vec<usize>,
        close_position: Vec<SingleLineSpan>,
        close_content: String,
        num_descendants: u32,
    },
    Atom { position: Vec<SingleLineSpan>, content: String, kind: AtomKind },
}

/// The children of a node; empty for an atom.
pub open spec fn children_of(node: Syntax) -> Seq<usize> {
    match node {
        Syntax::List { children, .. } => children@,
        Syntax::Atom { .. } => seq![],
    }
}

/// The spans at which a node begins: a list's open delimiter, or the atom.
pub open spec fn open_spans(node: Syntax) -> Seq<SingleLineSpan> {
    match node {
        Syntax::List { open_position, .. } => open_position@,
        Syntax::Atom { position, .. } => position@,
    }
}

/// The spans at which a node ends: a list's close delimiter, or the atom.
pub open spec fn close_spans(node: Syntax) -> Seq<SingleLineSpan> {
    match node {
        Syntax::List { close_position, .. } => close_position@,
        Syntax::Atom { position, .. } => position@,
    }
}

pub open spec fn is_list(node: Syntax) -> bool {
    node is List
}

/// The descendant count that a list caches: each child counts once, plus
/// its own descendants, saturating at `u32::MAX`.
pub open spec fn stored_descendants(node: Syntax) -> nat {
    match node {
        Syntax::List { num_descendants, .. } => num_descendants as nat,
        Syntax::Atom { .. } => 0,
    }
}

pub open spec fn descendants_sum(nodes: Seq<Syntax>, children: Seq<usize>) -> nat
    decreases children.len(),
{
    if children.len() == 0 {
        0
    } else {
        descendants_sum(nodes, children.drop_last()) + stored_descendants(
            nodes[children.last() as int],
        ) + 1
    }
}

/// The nodes of one diff, and their metadata.
pub struct Arena {
    pub nodes: Vec<Syntax>,
    pub infos: Vec<SyntaxInfo>,
}

impl Arena {
    /// One metadata record per node, and every child built before its list.
    pub open spec fn wf(&self) -> bool {
        &&& self.nodes@.len() == self.infos@.len()
        &&& forall|n: int, k: int|
            0 <= n < self.nodes@.len() && 0 <= k < children_of(self.nodes@[n]).len()
                ==> #[trigger] children_of(self.nodes@[n])[k] < n
    }

    pub fn new() -> (r: Arena)
        ensures
            r.wf(),
            r.nodes@.len() == 0,
    {
        Arena { nodes: Vec::new(), infos: Vec::new() }
    }

    pub fn len(&self) -> (r: usize)
        ensures
            r == self.nodes@.len(),
    {
        self.nodes.len()
    }

    pub fn node(&self, id: usize) -> (r: &Syntax)
        requires
            id < self.nodes@.len(),
        ensures
            *r == self.nodes@[id as int],
    {
        &self.nodes[id]
    }
}

/// Copy a list of spans.
pub fn copy_spans(spans: &[SingleLineSpan]) -> (r: Vec<SingleLineSpan>)
    ensures
        r@ == spans@,
{
    let mut r: Vec<SingleLineSpan> = Vec::new();
    let mut i: usize = 0;
    while i < spans.len()
        invariant
            i <= spans@.len(),
            r@ == spans@.take(i as int),
        decreases spans@.len() - i,
    {
        r.push(spans[i]);
        i = i + 1;
        assert(r@ =~= spans@.take(i as int));
    }
    assert(spans@.take(i as int) =~= spans@);
    r
}

impl Syntax {
    /// Add a list to the arena and return its index.
    pub fn new_list(
        arena: &mut Arena,
        open_content: &str,
        open_position: Vec<SingleLineSpan>,
        children: Vec<usize>,
        close_content: &str,
        close_position: Vec<SingleLineSpan>,
    ) -> (r: usize)
        requires
            old(arena).wf(),
            old(arena).nodes@.len() < usize::MAX,
            forall|k: int| 0 <= k < children@.len() ==> #[trigger] children@[k] < old(arena).nodes@.len(),
        ensures
            final(arena).wf(),
            r == old(arena).nodes@.len(),
            final(arena).nodes@.len() == r + 1,
            final(arena).nodes@.take(r as int) == old(arena).nodes@,
            final(arena).infos@ == old(arena).infos@.push(SyntaxInfo::initial()),
            match final(arena).nodes@[r as int] {
                Syntax::List {
                    open_position: op,
                    open_content: oc,
                    children: ch,
                    close_position: cp,
                    close_content: cc,
                    num_descendants,
                } => {
                    &&& op@ == open_position@
                    &&& oc@ == open_content@
                    &&& ch@ == children@
                    &&& cp@ == close_position@
                    &&& cc@ == close_content@
                    &&& num_descendants as nat == vstd::math::min(
                        descendants_sum(old(arena).nodes@, children@) as int,
                        u32::MAX as int,
                    )
                },
                Syntax::Atom { .. } => false,
            },
    {
        let mut num_descendants: u32 = 0;
        let mut i: usize = 0;
        while i < children.len()
            invariant
                i <= children@.len(),
                forall|k: int| 0 <= k < children@.len() ==> #[trigger] children@[k] < arena.nodes@.len(),
                num_descendants as nat == vstd::math::min(
                    descendants_sum(arena.nodes@, children@.take(i as int)) as int,
                    u32::MAX as int,
                ),
            decreases children@.len() - i,
        {
            let add: u32 = match &arena.nodes[children[i]] {
                Syntax::List { num_descendants, .. } => num_descendants.saturating_add(1),
                Syntax::Atom { .. } => 1,
            };
            num_descendants = num_descendants.saturating_add(add);
            assert(children@.take(i + 1).drop_last() =~= children@.take(i as int));
            i = i + 1;
        }
        assert(children@.take(i as int) =~= children@);
        let ghost old_nodes = arena.nodes@;
        let r = arena.nodes.len();
        arena.nodes.push(
            Syntax::List {
                open_position,
                open_content: String::from_str(open_content),
                children,
                close_position,
                close_content: String::from_str(close_content),
                num_descendants,
            },
        );
        arena.infos.push(SyntaxInfo::new());
        assert(arena.nodes@.take(r as int) =~= old_nodes);
        assert forall|n: int, k: int|
            0 <= n < arena.nodes@.len() && 0 <= k < children_of(arena.nodes@[n]).len()
                implies #[trigger] children_of(arena.nodes@[n])[k] < n by {
            if n < r {
                assert(arena.nodes@[n] == old_nodes[n]);
            }
        }
        r
    }

    /// Add an atom to the arena and return its index.
    pub fn new_atom(
        arena: &mut Arena,
        position: Vec<SingleLineSpan>,
        content: &str,
        kind: AtomKind,
    ) -> (r: usize)
        requires
            old(arena).wf(),
        ensures
            final(arena).wf(),
            r == old(arena).nodes@.len(),
            final(arena).nodes@.len() == r + 1,
            final(arena).nodes@.take(r as int) == old(arena).nodes@,
            final(arena).infos@ == old(arena).infos@.push(SyntaxInfo::initial()),
            match final(arena).nodes@[r as int] {
                Syntax::Atom { position: p, content: c, kind: k } => {
                    &&& p@ == position@
                    &&& c@ == content@
                    &&& k == kind
                },
                Syntax::List { .. } => false,
            },
    {
        let ghost old_nodes = arena.nodes@;
        let r = arena.nodes.len();
        arena.nodes.push(Syntax::Atom { position, content: String::from_str(content), kind });
        arena.infos.push(SyntaxInfo::new());
        assert(arena.nodes@.take(r as int) =~= old_nodes);
        assert forall|n: int, k: int|
            0 <= n < arena.nodes@.len() && 0 <= k < children_of(arena.nodes@[n]).len()
                implies #[trigger] children_of(arena.nodes@[n])[k] < n by {
            if n < r {
                assert(arena.nodes@[n] == old_nodes[n]);
            }
        }
        r
    }

    /// The metadata of node `id`.
    pub fn info(arena: &Arena, id: usize) -> (r: SyntaxInfo)
        requires
            arena.wf(),
            id < arena.nodes@.len(),
        ensures
            r == arena.infos@[id as int],
    {
        arena.infos[id]
    }

    /// The node after `id` in a preorder walk.
    pub fn next(arena: &Arena, id: usize) -> (r: Option<usize>)
        requires
            arena.wf(),
            id < arena.nodes@.len(),
        ensures
            r == arena.infos@[id as int].next,
    {
        arena.infos[id].next
    }

    pub fn prev_is_contiguous(arena: &Arena, id: usize) -> (r: bool)
        requires
            arena.wf(),
            id < arena.nodes@.len(),
        ensures
            r == arena.infos@[id as int].prev_is_contiguous,
    {
        arena.infos[id].prev_is_contiguous
    }

    /// A unique ID of this syntax node. Every node is given a different
    /// value.
    pub fn id(arena: &Arena, id: usize) -> (r: u32)
        requires
            arena.wf(),
            id < arena.nodes@.len(),
        ensures
            r == arena.infos@[id as int].unique_id,
    {
        arena.infos[id].unique_id
    }

    /// A content ID of this syntax node. Two nodes have the same content
    /// ID if they have the same content, regardless of position.
    pub fn content_id(arena: &Arena, id: usize) -> (r: u32)
        requires
            arena.wf(),
            id < arena.nodes@.len(),
        ensures
            r == arena.infos@[id as int].content_id,
    {
        arena.infos[id].content_id
    }

    pub fn num_ancestors(arena: &Arena, id: usize) -> (r: u32)
        requires
            arena.wf(),
            id < arena.nodes@.len(),
        ensures
            r == arena.infos@[id as int].num_ancestors,
    {
        arena.infos[id].num_ancestors
    }

    /// Whether two nodes have the same content: their content ids agree,
    /// whatever their positions and change kinds.
    pub fn eq(arena: &Arena, a: usize, b: usize) -> (r: bool)
        requires
            arena.wf(),
            a < arena.nodes@.len(),
            b < arena.nodes@.len(),
        ensures
            r == (arena.infos@[a as int].content_id == arena.infos@[b as int].content_id),
    {
        arena.infos[a].content_id == arena.infos[b].content_id
    }

    /// The line on which this node starts, if it has a position.
    pub fn first_line(&self) -> (r: Option<LineNumber>)
        ensures
            r == (if open_spans(*self).len() == 0 {
                None
            } else {
                Some(open_spans(*self)[0].line)
            }),
    {
        let position = match self {
            Syntax::List { open_position, .. } => open_position,
            Syntax::Atom { position, .. } => position,
        };
        if position.len() == 0 {
            None
        } else {
            Some(position[0].line)
        }
    }

    /// The line on which this node ends, if it has a position.
    pub fn last_line(&self) -> (r: Option<LineNumber>)
        ensures
            r == (if close_spans(*self).len() == 0 {
                None
            } else {
                Some(close_spans(*self).last().line)
            }),
    {
        let position = match self {
            Syntax::List { close_position, .. } => close_position,
            Syntax::Atom { position, .. } => position,
        };
        if position.len() == 0 {
            None
        } else {
            Some(position[position.len() - 1].line)
        }
    }
}

/// `a` and `b` agree on every field but `change`.
pub open spec fn same_but_change(a: SyntaxInfo, b: SyntaxInfo) -> bool {
    SyntaxInfo { change: b.change, ..a } == b
}

/// A change kind that `set_change_deep` passes down unchanged: all but an
/// `Unchanged` that points at a list.
pub open spec fn passes_down(nodes: Seq<Syntax>, ck: ChangeKind) -> bool {
    match ck {
        ChangeKind::Unchanged(o) => !is_list(nodes[o as int]),
        _ => true,
    }
}

/// The nodes that a change kind refers to are in the arena.
pub open spec fn change_in_arena(arena: &Arena, ck: ChangeKind) -> bool {
    match ck {
        ChangeKind::Unchanged(o) => o < arena.nodes@.len(),
        ChangeKind::ReplacedComment(a, b) => a < arena.nodes@.len() && b < arena.nodes@.len(),
        ChangeKind::Novel => true,
    }
}

/// Node `n` and all nodes below it carry the change `ck`.
pub open spec fn subtree_marked(
    nodes: Seq<Syntax>,
    infos: Seq<SyntaxInfo>,
    n: usize,
    ck: ChangeKind,
) -> bool
    decreases n,
{
    &&& n < infos.len()
    &&& n < nodes.len()
    &&& infos[n as int].change == Some(ck)
    &&& forall|k: int|
        0 <= k < children_of(nodes[n as int]).len() ==> {
            let c = #[trigger] children_of(nodes[n as int])[k];
            c < n && subtree_marked(nodes, infos, c, ck)
        }
}

/// Writing `ck` over some changes keeps a subtree marked with `ck`.
pub proof fn lemma_subtree_marked_stable(
    nodes: Seq<Syntax>,
    a: Seq<SyntaxInfo>,
    b: Seq<SyntaxInfo>,
    n: usize,
    ck: ChangeKind,
)
    requires
        subtree_marked(nodes, a, n, ck),
        a.len() == b.len(),
        forall|i: int| 0 <= i < a.len() ==> b[i].change == a[i].change || b[i].change == Some(ck),
    ensures
        subtree_marked(nodes, b, n, ck),
    decreases n,
{
    assert forall|k: int| 0 <= k < children_of(nodes[n as int]).len() implies {
        let c = #[trigger] children_of(nodes[n as int])[k];
        c < n && subtree_marked(nodes, b, c, ck)
    } by {
        let c = children_of(nodes[n as int])[k];
        lemma_subtree_marked_stable(nodes, a, b, c, ck);
    }
}

fn num_children(arena: &Arena, id: usize) -> (r: usize)
    requires
        id < arena.nodes@.len(),
    ensures
        r == children_of(arena.nodes@[id as int]).len(),
{
    match &arena.nodes[id] {
        Syntax::List { children, .. } => children.len(),
        Syntax::Atom { .. } => 0,
    }
}

fn child_at(arena: &Arena, id: usize, k: usize) -> (r: usize)
    requires
        id < arena.nodes@.len(),
        k < children_of(arena.nodes@[id as int]).len(),
    ensures
        r == children_of(arena.nodes@[id as int])[k as int],
{
    match &arena.nodes[id] {
        Syntax::List { children, .. } => children[k],
        Syntax::Atom { .. } => 0,
    }
}

fn is_list_exec(arena: &Arena, id: usize) -> (r: bool)
    requires
        id < arena.nodes@.len(),
    ensures
        r == is_list(arena.nodes@[id as int]),
{
    match &arena.nodes[id] {
        Syntax::List { .. } => true,
        Syntax::Atom { .. } => false,
    }
}

impl Syntax {
    /// Record the change kind of node `id`.
    pub fn set_change(arena: &mut Arena, id: usize, ck: ChangeKind)
        requires
            old(arena).wf(),
            id < old(arena).nodes@.len(),
        ensures
            final(arena).wf(),
            final(arena).nodes@ == old(arena).nodes@,
            final(arena).infos@ == old(arena).infos@.update(
                id as int,
                SyntaxInfo { change: Some(ck), ..old(arena).infos@[id as int] },
            ),
    {
        let info = SyntaxInfo { change: Some(ck), ..arena.infos[id] };
        arena.infos.set(id, info);
    }

    /// Record the change kind of node `id` and of the nodes below it. The
    /// children of two matched lists are matched pairwise, as far as the
    /// shorter list goes; any other change kind is given to every node of
    /// the subtree.
    pub fn set_change_deep(arena: &mut Arena, id: usize, ck: ChangeKind)
        requires
            old(arena).wf(),
            id < old(arena).nodes@.len(),
            change_in_arena(old(arena), ck),
        ensures
            final(arena).wf(),
            final(arena).nodes@ == old(arena).nodes@,
            final(arena).infos@.len() == old(arena).infos@.len(),
            forall|i: int|
                0 <= i < old(arena).infos@.len() ==> {
                    &&& same_but_change(old(arena).infos@[i], #[trigger] final(arena).infos@[i])
                    &&& (old(arena).infos@[i].change is Some ==> final(arena).infos@[i].change is Some)
                    &&& (id < i ==> final(arena).infos@[i] == old(arena).infos@[i])
                    &&& (passes_down(old(arena).nodes@, ck) ==> final(arena).infos@[i].change
                        == old(arena).infos@[i].change || final(arena).infos@[i].change == Some(
                        ck,
                    ))
                },
            final(arena).infos@[id as int].change == Some(ck),
            passes_down(old(arena).nodes@, ck) ==> subtree_marked(
                final(arena).nodes@,
                final(arena).infos@,
                id,
                ck,
            ),
            match ck {
                ChangeKind::Unchanged(o) => is_list(old(arena).nodes@[id as int]) && is_list(
                    old(arena).nodes@[o as int],
                ) ==> forall|k: int|
                    0 <= k < children_of(old(arena).nodes@[id as int]).len() && k < children_of(
                        old(arena).nodes@[o as int],
                    ).len() ==> (#[trigger] final(arena).infos@[children_of(
                        old(arena).nodes@[id as int],
                    )[k] as int]).change is Some,
                _ => true,
            },
        decreases id,
    {
        let ghost start = arena.infos@;
        Syntax::set_change(arena, id, ck);
        let n = num_children(arena, id);
        let pair_with: Option<usize> = match ck {
            ChangeKind::Unchanged(o) => if is_list_exec(arena, o) {
                Some(o)
            } else {
                None
            },
            _ => None,
        };
        match pair_with {
            Some(o) => {
                let m = num_children(arena, o);
                let mut i: usize = 0;
                while i < n && i < m
                    invariant
                        arena.wf(),
                        arena.nodes@ == old(arena).nodes@,
                        id < arena.nodes@.len(),
                        o < arena.nodes@.len(),
                        is_list(arena.nodes@[o as int]),
                        ck == ChangeKind::Unchanged(o),
                        n == children_of(arena.nodes@[id as int]).len(),
                        m == children_of(arena.nodes@[o as int]).len(),
                        arena.infos@.len() == start.len(),
                        arena.infos@[id as int].change == Some(ck),
                        forall|j: int|
                            0 <= j < start.len() ==> {
                                &&& same_but_change(start[j], #[trigger] arena.infos@[j])
                                &&& (start[j].change is Some ==> arena.infos@[j].change is Some)
                                &&& (id < j ==> arena.infos@[j] == start[j])
                            },
                        forall|j: int|
                            0 <= j < i ==> (#[trigger] arena.infos@[children_of(
                                arena.nodes@[id as int],
                            )[j] as int]).change is Some,
                    decreases n - i,
                {
                    let c = child_at(arena, id, i);
                    let oc = child_at(arena, o, i);
                    let ghost before = arena.infos@;
                    Syntax::set_change_deep(arena, c, ChangeKind::Unchanged(oc));
                    assert forall|j: int| 0 <= j <= i implies (#[trigger] arena.infos@[children_of(
                        arena.nodes@[id as int],
                    )[j] as int]).change is Some by {
                        let cj = children_of(arena.nodes@[id as int])[j];
                        assert(before[cj as int].change is Some ==> arena.infos@[cj as int].change is Some);
                    }
                    i = i + 1;
                }
            },
            None => {
                let mut i: usize = 0;
                while i < n
                    invariant
                        arena.wf(),
                        arena.nodes@ == old(arena).nodes@,
                        id < arena.nodes@.len(),
                        change_in_arena(arena, ck),
                        passes_down(arena.nodes@, ck),
                        n == children_of(arena.nodes@[id as int]).len(),
                        arena.infos@.len() == start.len(),
                        arena.infos@[id as int].change == Some(ck),
                        forall|j: int|
                            0 <= j < start.len() ==> {
                                &&& same_but_change(start[j], #[trigger] arena.infos@[j])
                                &&& (start[j].change is Some ==> arena.infos@[j].change is Some)
                                &&& (id < j ==> arena.infos@[j] == start[j])
                                &&& (arena.infos@[j].change == start[j].change
                                    || arena.infos@[j].change == Some(ck))
                            },
                        forall|j: int|
                            0 <= j < i ==> subtree_marked(
                                arena.nodes@,
                                arena.infos@,
                                #[trigger] children_of(arena.nodes@[id as int])[j],
                                ck,
                            ),
                    decreases n - i,
                {
                    let c = child_at(arena, id, i);
                    let ghost before = arena.infos@;
                    Syntax::set_change_deep(arena, c, ck);
                    assert forall|j: int| 0 <= j <= i implies subtree_marked(
                        arena.nodes@,
                        arena.infos@,
                        #[trigger] children_of(arena.nodes@[id as int])[j],
                        ck,
                    ) by {
                        if j < i {
                            lemma_subtree_marked_stable(
                                arena.nodes@,
                                before,
                                arena.infos@,
                                children_of(arena.nodes@[id as int])[j],
                                ck,
                            );
                        }
                    }
                    i = i + 1;
                }
                assert(subtree_marked(arena.nodes@, arena.infos@, id, ck));
            },
        }
    }
}

impl Default for SyntaxInfo {
    fn default() -> (r: Self)
        ensures
            r == SyntaxInfo::initial(),
    {
        Self::new()
    }
}

/// Zip `lhs` with `rhs`, padding the shorter one with `None`.
pub fn zip_pad_shorter<Tx: Clone, Ty: Clone>(lhs: &[Tx], rhs: &[Ty]) -> (r: Vec<(Option<Tx>, Option<Ty>)>)
    ensures
        r@.len() == vstd::math::max(lhs@.len() as int, rhs@.len() as int),
        forall|i: int|
            0 <= i < r@.len() ==> {
                &&& ((#[trigger] r@[i]).0 is Some <==> i < lhs@.len())
                &&& (r@[i].1 is Some <==> i < rhs@.len())
                &&& (i < lhs@.len() ==> cloned(lhs@[i], r@[i].0.unwrap()))
                &&& (i < rhs@.len() ==> cloned(rhs@[i], r@[i].1.unwrap()))
            },
{
    let mut res: Vec<(Option<Tx>, Option<Ty>)> = Vec::new();
    let mut i: usize = 0;
    while i < lhs.len() || i < rhs.len()
        invariant
            i <= vstd::math::max(lhs@.len() as int, rhs@.len() as int),
            res@.len() == i,
            forall|j: int|
                0 <= j < i ==> {
                    &&& ((#[trigger] res@[j]).0 is Some <==> j < lhs@.len())
                    &&& (res@[j].1 is Some <==> j < rhs@.len())
                    &&& (j < lhs@.len() ==> cloned(lhs@[j], res@[j].0.unwrap()))
                    &&& (j < rhs@.len() ==> cloned(rhs@[j], res@[j].1.unwrap()))
                },
        decreases vstd::math::max(lhs@.len() as int, rhs@.len() as int) - i,
    {
        let x = if i < lhs.len() {
            Some(lhs[i].clone())
        } else {
            None
        };
        let y = if i < rhs.len() {
            Some(rhs[i].clone())
        } else {
            None
        };
        res.push((x, y));
        i = i + 1;
    }
    res
}

/// Zip `lhs` with `rhs`, repeating the last item of the shorter one; empty
/// if either is empty.
pub fn zip_repeat_shorter<Tx: Clone, Ty: Clone>(lhs: &[Tx], rhs: &[Ty]) -> (r: Vec<(Tx, Ty)>)
    ensures
        r@.len() == if lhs@.len() == 0 || rhs@.len() == 0 {
            0
        } else {
            vstd::math::max(lhs@.len() as int, rhs@.len() as int)
        },
        forall|i: int|
            0 <= i < r@.len() ==> {
                &&& cloned(lhs@[vstd::math::min(i, lhs@.len() - 1)], (#[trigger] r@[i]).0)
                &&& cloned(rhs@[vstd::math::min(i, rhs@.len() - 1)], r@[i].1)
            },
{
    let mut res: Vec<(Tx, Ty)> = Vec::new();
    if lhs.len() == 0 || rhs.len() == 0 {
        return res;
    }
    let lhs_last = lhs.len() - 1;
    let rhs_last = rhs.len() - 1;
    let mut i: usize = 0;
    while i < lhs.len() || i < rhs.len()
        invariant
            lhs@.len() > 0,
            rhs@.len() > 0,
            lhs_last == lhs@.len() - 1,
            rhs_last == rhs@.len() - 1,
            i <= vstd::math::max(lhs@.len() as int, rhs@.len() as int),
            res@.len() == i,
            forall|j: int|
                0 <= j < i ==> {
                    &&& cloned(lhs@[vstd::math::min(j, lhs@.len() - 1)], (#[trigger] res@[j]).0)
                    &&& cloned(rhs@[vstd::math::min(j, rhs@.len() - 1)], res@[j].1)
                },
        decreases vstd::math::max(lhs@.len() as int, rhs@.len() as int) - i,
    {
        let x = if i < lhs.len() {
            lhs[i].clone()
        } else {
            lhs[lhs_last].clone()
        };
        let y = if i < rhs.len() {
            rhs[i].clone()
        } else {
            rhs[rhs_last].clone()
        };
        res.push((x, y));
        i = i + 1;
    }
    res
}

} // verus!
