//! The message tree: the vertices of a branching conversation and the
//! aggregate that owns them.
//!
//! Messages are kept in an arena ordered by creation: ids are handed out by
//! a strictly growing counter, so a message's parent always has a smaller id
//! and sits earlier in the arena. Sibling order is carried by
//! `sibling_index`, which counts the children of one parent from 1 upward in
//! creation order.

use vstd::prelude::*;

use crate::RustGPTError;

verus! {

/// Who speaks a message.
#[derive(Clone, Copy, Debug, PartialEq, Eq, Structural, Hash)]
pub enum Role {
    System,
    User,
    Assistant,
}

/// The mathematical content of one message: what the contracts of this
/// module speak about.
pub ghost struct MessageView {
    pub id: u64,
    pub parent_id: Option<u64>,
    pub sibling_index: u64,
    pub role: Role,
    pub content: Seq<char>,
}

/// What every message satisfies on its own: content is never empty, sibling
/// numbering starts at 1, and only the system root lacks a parent.
pub open spec fn msg_wf(m: MessageView) -> bool {
    &&& m.content.len() > 0
    &&& m.sibling_index >= 1
    &&& m.parent_id is None ==> m.role == Role::System
}

/// A single message of a conversation. Immutable once created: the tree
/// grows only by inserting new messages.
#[derive(Debug)]
pub struct Message {
    id: u64,
    parent_id: Option<u64>,
    sibling_index: u64,
    role: Role,
    content: String,
}

impl View for Message {
    type V = MessageView;

    closed spec fn view(&self) -> MessageView {
        MessageView {
            id: self.id,
            parent_id: self.parent_id,
            sibling_index: self.sibling_index,
            role: self.role,
            content: self.content@,
        }
    }
}

impl Clone for Message {
    fn clone(&self) -> (r: Self)
        ensures
            r == *self,
    {
        proof {
            use_type_invariant(self);
        }
        Message {
            id: self.id,
            parent_id: self.parent_id,
            sibling_index: self.sibling_index,
            role: self.role,
            content: self.content.clone(),
        }
    }
}

impl Message {
    #[verifier::type_invariant]
    spec fn inv(self) -> bool {
        msg_wf(self@)
    }

    /// Builds a message from its parts, rejecting what `msg_wf` rejects:
    /// empty content, a sibling index of 0, or a parentless message whose
    /// role is not System.
    pub fn new(
        id: u64,
        parent_id: Option<u64>,
        sibling_index: u64,
        role: Role,
        content: String,
    ) -> (r: Result<Message, RustGPTError>)
        ensures
            r is Ok <==> msg_wf(
                MessageView { id, parent_id, sibling_index, role, content: content@ },
            ),
            r matches Ok(m) ==> m@ == (MessageView {
                id,
                parent_id,
                sibling_index,
                role,
                content: content@,
            }),
            r matches Err(e) ==> e is BadMessage,
    {
        if content.as_str().is_empty() {
            return Err(RustGPTError::BadMessage(String::from_str("message must have content")));
        }
        if sibling_index == 0 {
            return Err(
                RustGPTError::BadMessage(String::from_str("sibling numbering starts at 1")),
            );
        }
        if parent_id.is_none() && !matches!(role, Role::System) {
            return Err(
                RustGPTError::BadMessage(
                    String::from_str("parent can only be absent when the role is System"),
                ),
            );
        }
        Ok(Message { id, parent_id, sibling_index, role, content })
    }

    /// The message's unique id.
    pub fn id(&self) -> (r: u64)
        ensures
            r == self@.id,
    {
        self.id
    }

    /// The id of the parent message; `None` only for the system root.
    pub fn parent_id(&self) -> (r: Option<u64>)
        ensures
            r == self@.parent_id,
    {
        self.parent_id
    }

    /// The message's position among its siblings, counted from 1 in
    /// creation order.
    pub fn index(&self) -> (r: u64)
        ensures
            r == self@.sibling_index,
            r >= 1,
    {
        proof {
            use_type_invariant(self);
        }
        self.sibling_index
    }

    /// The message's role.
    pub fn role(&self) -> (r: &Role)
        ensures
            *r == self@.role,
    {
        &self.role
    }

    /// The message's text; never empty.
    pub fn content(&self) -> (r: &String)
        ensures
            r@ == self@.content,
            r@.len() > 0,
    {
        proof {
            use_type_invariant(self);
        }
        &self.content
    }
}

/// The views of a sequence of messages.
pub open spec fn seq_views(s: Seq<Message>) -> Seq<MessageView> {
    s.map_values(|m: Message| m@)
}

/// The views of a sequence of content strings.
pub open spec fn content_views(cs: Seq<String>) -> Seq<Seq<char>> {
    cs.map_values(|c: String| c@)
}

/// Whether some message in `s` carries `id`.
pub open spec fn has_id(s: Seq<MessageView>, id: u64) -> bool {
    exists|i: int| 0 <= i < s.len() && (#[trigger] s[i].id) == id
}

/// An index at which `id` occurs in `s` (unique when ids are distinct).
pub open spec fn idx_of_id(s: Seq<MessageView>, id: u64) -> int {
    choose|i: int| 0 <= i < s.len() && (#[trigger] s[i].id) == id
}

/// The message of `s` that carries `id`.
pub open spec fn msg_with_id(s: Seq<MessageView>, id: u64) -> MessageView {
    s[idx_of_id(s, id)]
}

/// The children of `parent` in `s`, in arena order; in a well-formed tree
/// that is ascending sibling order.
pub open spec fn children_in(s: Seq<MessageView>, parent: u64) -> Seq<MessageView>
    decreases s.len(),
{
    if s.len() == 0 {
        Seq::empty()
    } else {
        let rest = children_in(s.drop_last(), parent);
        if s.last().parent_id == Some(parent) {
            rest.push(s.last())
        } else {
            rest
        }
    }
}

/// How many children `parent` has in `s`.
pub open spec fn child_count(s: Seq<MessageView>, parent: u64) -> nat {
    children_in(s, parent).len()
}

/// Whether the message carrying `id` is a leaf: the parent of no message
/// in `s`.
pub open spec fn is_leaf_in(s: Seq<MessageView>, id: u64) -> bool {
    forall|i: int| 0 <= i < s.len() ==> (#[trigger] s[i].parent_id) != Some(id)
}

/// Whether the parent of `s[i]` occurs in `s` strictly before `i`.
pub open spec fn parent_resolves_before(s: Seq<MessageView>, i: int) -> bool {
    exists|j: int| 0 <= j < i && (#[trigger] s[j].id) == s[i].parent_id->0
}

/// What makes an arena of messages a conversation tree:
/// - the first message is the system root, the only one without a parent;
/// - ids grow strictly along the arena, so every id occurs once;
/// - every other message's parent occurs earlier in the arena;
/// - every message's sibling index is one more than the number of children
///   its parent had when the message was created.
pub open spec fn tree_wf(s: Seq<MessageView>) -> bool {
    &&& s.len() >= 1
    &&& s[0].parent_id is None
    &&& s[0].role == Role::System
    &&& (forall|i: int| 0 <= i < s.len() ==> msg_wf(#[trigger] s[i]))
    &&& (forall|i: int, j: int|
        0 <= i < j < s.len() ==> (#[trigger] s[i].id) < (#[trigger] s[j].id))
    &&& (forall|i: int| 1 <= i < s.len() ==> (#[trigger] s[i].parent_id) is Some)
    &&& (forall|i: int| 1 <= i < s.len() ==> #[trigger] parent_resolves_before(s, i))
    &&& (forall|i: int|
        1 <= i < s.len() ==> (#[trigger] s[i].sibling_index) == child_count(
            s.take(i),
            s[i].parent_id->0,
        ) + 1)
}

/// The messages a batch insertion appends for `parent_id`: one message per
/// content, with ids counted from `n0` and sibling indexes counted from one
/// past the children `parent_id` already had in `s0`.
pub open spec fn new_children(
    s0: Seq<MessageView>,
    parent_id: u64,
    cs: Seq<Seq<char>>,
    n0: u64,
    role: Role,
) -> Seq<MessageView> {
    Seq::new(
        cs.len(),
        |k: int|
            MessageView {
                id: (n0 + k) as u64,
                parent_id: Some(parent_id),
                sibling_index: (child_count(s0, parent_id) + k + 1) as u64,
                role: role,
                content: cs[k],
            },
    )
}

/// `children_in` collects no more elements than the arena holds.
proof fn lemma_children_in_len(s: Seq<MessageView>, p: u64)
    ensures
        children_in(s, p).len() <= s.len(),
    decreases s.len(),
{
    if s.len() > 0 {
        lemma_children_in_len(s.drop_last(), p);
    }
}

/// Every collected child carries the parent it was collected for, and
/// occurs in the arena.
pub proof fn lemma_children_structure(s: Seq<MessageView>, p: u64)
    ensures
        forall|k: int|
            0 <= k < children_in(s, p).len() ==> (#[trigger] children_in(s, p)[k]).parent_id
                == Some(p),
        forall|k: int|
            0 <= k < children_in(s, p).len() ==> exists|i: int|
                0 <= i < s.len() && s[i] == #[trigger] children_in(s, p)[k],
    decreases s.len(),
{
    if s.len() > 0 {
        lemma_children_structure(s.drop_last(), p);
        assert forall|k: int| 0 <= k < children_in(s, p).len() implies exists|i: int|
            0 <= i < s.len() && s[i] == #[trigger] children_in(s, p)[k] by {
            let rest = children_in(s.drop_last(), p);
            if k < rest.len() {
                let i = choose|i: int| 0 <= i < s.drop_last().len() && s.drop_last()[i] == rest[k];
                assert(s[i] == children_in(s, p)[k]);
            } else {
                assert(s[s.len() - 1] == children_in(s, p)[k]);
            }
        }
    }
}

/// An arena message with parent `p` is among the collected children of `p`.
proof fn lemma_children_in_contains(s: Seq<MessageView>, p: u64, i: int)
    requires
        0 <= i < s.len(),
        s[i].parent_id == Some(p),
    ensures
        children_in(s, p).contains(s[i]),
    decreases s.len(),
{
    if i < s.len() - 1 {
        lemma_children_in_contains(s.drop_last(), p, i);
        let rest = children_in(s.drop_last(), p);
        let k = choose|k: int| 0 <= k < rest.len() && rest[k] == s.drop_last()[i];
        assert(children_in(s, p)[k] == s[i]);
    } else {
        let c = children_in(s, p);
        assert(c[c.len() - 1] == s[i]);
    }
}

/// Appending messages that are all children of `p` appends them, in order,
/// to the collected children of `p`.
proof fn lemma_children_append(s: Seq<MessageView>, t: Seq<MessageView>, p: u64)
    requires
        forall|k: int| 0 <= k < t.len() ==> (#[trigger] t[k]).parent_id == Some(p),
    ensures
        children_in(s + t, p) =~= children_in(s, p) + t,
    decreases t.len(),
{
    if t.len() == 0 {
        assert(s + t =~= s);
    } else {
        lemma_children_append(s, t.drop_last(), p);
        assert((s + t).drop_last() =~= s + t.drop_last());
        assert((s + t).last() == t.last());
    }
}

/// With strictly growing ids, the id at a position is at least the
/// position.
proof fn lemma_id_lower_bound(s: Seq<MessageView>, i: int)
    requires
        forall|a: int, b: int| 0 <= a < b < s.len() ==> (#[trigger] s[a].id) < (#[trigger] s[b].id),
        0 <= i < s.len(),
    ensures
        s[i].id >= i,
    decreases i,
{
    if i > 0 {
        lemma_id_lower_bound(s, i - 1);
    }
}

/// With strictly growing ids, looking an id up lands on the position it
/// came from: ids identify messages.
pub proof fn lemma_idx_of_id(s: Seq<MessageView>, i: int)
    requires
        forall|a: int, b: int| 0 <= a < b < s.len() ==> (#[trigger] s[a].id) < (#[trigger] s[b].id),
        0 <= i < s.len(),
    ensures
        has_id(s, s[i].id),
        idx_of_id(s, s[i].id) == i,
        msg_with_id(s, s[i].id) == s[i],
{
    assert(0 <= i < s.len() && s[i].id == s[i].id);
    let j = idx_of_id(s, s[i].id);
    if j < i {
        assert(s[j].id < s[i].id);
    } else if j > i {
        assert(s[i].id < s[j].id);
    }
}

/// In a well-formed tree the last message of the arena is a leaf: a child
/// would have to sit even later.
proof fn lemma_last_is_leaf(s: Seq<MessageView>)
    requires
        tree_wf(s),
    ensures
        is_leaf_in(s, s[s.len() - 1].id),
{
    let n = s.len() - 1;
    assert forall|i: int| 0 <= i < s.len() implies (#[trigger] s[i].parent_id) != Some(s[n].id) by {
        if s[i].parent_id == Some(s[n].id) {
            assert(parent_resolves_before(s, i));
            let j = choose|j: int| 0 <= j < i && (#[trigger] s[j].id) == s[i].parent_id->0;
            lemma_idx_of_id(s, j);
            lemma_idx_of_id(s, n);
        }
    }
}

/// In a well-formed tree, the children of one parent are numbered
/// 1, 2, 3, ... in arena order.
proof fn lemma_children_indexed(s: Seq<MessageView>, p: u64, i: int)
    requires
        tree_wf(s),
        0 <= i <= s.len(),
    ensures
        forall|k: int|
            0 <= k < children_in(s.take(i), p).len() ==> (#[trigger] children_in(s.take(i), p)[k]).sibling_index
                == k + 1,
    decreases i,
{
    if i > 0 {
        lemma_children_indexed(s, p, i - 1);
        assert(s.take(i).drop_last() =~= s.take(i - 1));
        assert(s.take(i).last() == s[i - 1]);
        if s[i - 1].parent_id == Some(p) {
            assert(s[i - 1].sibling_index == child_count(s.take(i - 1), s[i - 1].parent_id->0) + 1);
        }
    }
}

/// `lemma_children_indexed` for the whole arena.
proof fn lemma_children_indexed_full(s: Seq<MessageView>, p: u64)
    requires
        tree_wf(s),
    ensures
        forall|k: int|
            0 <= k < children_in(s, p).len() ==> (#[trigger] children_in(s, p)[k]).sibling_index
                == k + 1,
{
    lemma_children_indexed(s, p, s.len() as int);
    assert(s.take(s.len() as int) =~= s);
}

/// Appending one well-formed child with a fresh maximal id and the next
/// sibling index keeps the tree well-formed.
proof fn lemma_push_child_wf(t: Seq<MessageView>, m: MessageView)
    requires
        tree_wf(t),
        msg_wf(m),
        m.parent_id is Some,
        has_id(t, m.parent_id->0),
        forall|i: int| 0 <= i < t.len() ==> (#[trigger] t[i].id) < m.id,
        m.sibling_index == child_count(t, m.parent_id->0) + 1,
    ensures
        tree_wf(t.push(m)),
{
    let t2 = t.push(m);
    let n = t.len() as int;
    assert forall|i: int| 1 <= i < t2.len() implies #[trigger] parent_resolves_before(t2, i) by {
        if i < n {
            assert(parent_resolves_before(t, i));
            let j = choose|j: int| 0 <= j < i && (#[trigger] t[j].id) == t[i].parent_id->0;
            assert(t2[j].id == t2[i].parent_id->0);
        } else {
            let j = idx_of_id(t, m.parent_id->0);
            assert(t2[j].id == t2[i].parent_id->0);
        }
    }
    assert forall|i: int| 1 <= i < t2.len() implies (#[trigger] t2[i].sibling_index) == child_count(
        t2.take(i),
        t2[i].parent_id->0,
    ) + 1 by {
        if i < n {
            assert(t2.take(i) =~= t.take(i));
            assert(t[i].sibling_index == child_count(t.take(i), t[i].parent_id->0) + 1);
        } else {
            assert(t2.take(i) =~= t);
        }
    }
}

/// Appending a batch of `new_children` to a well-formed tree keeps it
/// well-formed, and the new ids stay below the advanced counter.
#[verifier::rlimit(50)]
proof fn lemma_append_children_wf(
    s0: Seq<MessageView>,
    parent_id: u64,
    cs: Seq<Seq<char>>,
    n0: u64,
    role: Role,
)
    requires
        tree_wf(s0),
        forall|i: int| 0 <= i < s0.len() ==> (#[trigger] s0[i].id) < n0,
        has_id(s0, parent_id),
        forall|k: int| 0 <= k < cs.len() ==> (#[trigger] cs[k]).len() > 0,
        n0 + cs.len() <= u64::MAX,
    ensures
        tree_wf(s0 + new_children(s0, parent_id, cs, n0, role)),
        forall|i: int|
            0 <= i < (s0 + new_children(s0, parent_id, cs, n0, role)).len() ==> (#[trigger] (s0
                + new_children(s0, parent_id, cs, n0, role))[i].id) < n0 + cs.len(),
    decreases cs.len(),
{
    let nc = new_children(s0, parent_id, cs, n0, role);
    let base = child_count(s0, parent_id);
    lemma_children_in_len(s0, parent_id);
    lemma_id_lower_bound(s0, s0.len() - 1);
    if cs.len() == 0 {
        assert(s0 + nc =~= s0);
    } else {
        let cs1 = cs.drop_last();
        let nc1 = new_children(s0, parent_id, cs1, n0, role);
        lemma_append_children_wf(s0, parent_id, cs1, n0, role);
        let t = s0 + nc1;
        let m = nc.last();
        assert(s0 + nc =~= t.push(m));
        assert forall|k: int| 0 <= k < nc1.len() implies (#[trigger] nc1[k]).parent_id == Some(
            parent_id,
        ) by {}
        lemma_children_append(s0, nc1, parent_id);
        assert(child_count(t, parent_id) == base + cs1.len());
        let pj = idx_of_id(s0, parent_id);
        assert(t[pj].id == parent_id);
        assert(has_id(t, parent_id));
        lemma_push_child_wf(t, m);
    }
}

/// The aggregate owning all messages of one conversation, indexed by id.
pub struct MessageTree {
    msgs: Vec<Message>,
    next_id: u64,
}

impl View for MessageTree {
    type V = Seq<MessageView>;

    closed spec fn view(&self) -> Seq<MessageView> {
        seq_views(self.msgs@)
    }
}

impl MessageTree {
    /// What every tree satisfies at all times: a well-formed arena whose
    /// ids all lie below the id counter.
    #[verifier::type_invariant]
    pub open spec fn well_formed(self) -> bool {
        &&& tree_wf(self@)
        &&& forall|i: int|
            0 <= i < self@.len() ==> (#[trigger] self@[i].id) < self.spec_next_id()
    }

    /// The id the next created message will carry; ids never repeat.
    pub closed spec fn spec_next_id(self) -> u64 {
        self.next_id
    }

    /// A new tree holding exactly one root message with role System and the
    /// given content; fails exactly on empty content.
    pub fn create(system_content: String) -> (r: Result<MessageTree, RustGPTError>)
        ensures
            r is Ok <==> system_content@.len() > 0,
            r matches Ok(t) ==> t@ =~= seq![
                MessageView {
                    id: 0,
                    parent_id: None,
                    sibling_index: 1,
                    role: Role::System,
                    content: system_content@,
                },
            ] && t.spec_next_id() == 1,
            r matches Err(e) ==> e is BadMessage,
    {
        if system_content.as_str().is_empty() {
            return Err(RustGPTError::BadMessage(String::from_str("message must have content")));
        }
        let root = Message {
            id: 0,
            parent_id: None,
            sibling_index: 1,
            role: Role::System,
            content: system_content,
        };
        let mut msgs: Vec<Message> = Vec::new();
        msgs.push(root);
        let tree = MessageTree { msgs, next_id: 1 };
        proof {
            assert(tree@ =~= seq![
                MessageView {
                    id: 0,
                    parent_id: None,
                    sibling_index: 1,
                    role: Role::System,
                    content: system_content@,
                },
            ]);
        }
        Ok(tree)
    }

    /// How many messages the tree holds.
    pub fn len(&self) -> (n: usize)
        ensures
            n == self@.len(),
            n >= 1,
    {
        proof {
            use_type_invariant(self);
        }
        self.msgs.len()
    }

    /// The unique message without a parent: the system root.
    pub fn root(&self) -> (r: Message)
        ensures
            self@.len() >= 1,
            r@ == self@[0],
            r@.parent_id is None,
            r@.role == Role::System,
    {
        proof {
            use_type_invariant(self);
        }
        self.msgs[0].clone()
    }

    /// The arena position of the message carrying `id`, if any.
    fn index_of(&self, id: u64) -> (r: Option<usize>)
        ensures
            r matches Some(i) ==> i < self@.len() && self@[i as int].id == id,
            r is Some <==> has_id(self@, id),
    {
        proof {
            use_type_invariant(self);
        }
        let n = self.msgs.len();
        for i in 0..n
            invariant
                n == self@.len(),
                forall|j: int| 0 <= j < i ==> (#[trigger] self@[j].id) != id,
        {
            if self.msgs[i].id == id {
                proof {
                    assert(self@[i as int] == self.msgs@[i as int]@);
                }
                return Some(i);
            }
        }
        None
    }

    /// The message carrying `id`, if any.
    pub fn get(&self, id: u64) -> (r: Option<Message>)
        ensures
            r is Some <==> has_id(self@, id),
            r matches Some(m) ==> m@ == msg_with_id(self@, id),
    {
        proof {
            use_type_invariant(self);
        }
        match self.index_of(id) {
            None => None,
            Some(i) => {
                proof {
                    assert(self@[i as int] == self.msgs@[i as int]@);
                    lemma_idx_of_id(self@, i as int);
                }
                Some(self.msgs[i].clone())
            },
        }
    }

    /// All children of the message carrying `parent_id`, in ascending
    /// sibling order: the k-th returned message carries sibling index k + 1.
    /// Empty when the message is a leaf or the id is unknown.
    pub fn children_of(&self, parent_id: u64) -> (r: Vec<Message>)
        ensures
            seq_views(r@) =~= children_in(self@, parent_id),
            forall|k: int| 0 <= k < r@.len() ==> (#[trigger] r@[k])@.sibling_index == k + 1,
    {
        proof {
            use_type_invariant(self);
        }
        let mut out: Vec<Message> = Vec::new();
        let n = self.msgs.len();
        for i in 0..n
            invariant
                n == self@.len(),
                seq_views(out@) =~= children_in(self@.take(i as int), parent_id),
        {
            proof {
                assert(self@.take(i + 1).drop_last() =~= self@.take(i as int));
                assert(self@.take(i + 1).last() == self@[i as int]);
            }
            let m = &self.msgs[i];
            let is_child = match m.parent_id {
                Some(p) => p == parent_id,
                None => false,
            };
            if is_child {
                out.push(m.clone());
            }
        }
        proof {
            assert(self@.take(n as int) =~= self@);
            lemma_children_indexed_full(self@, parent_id);
            assert forall|k: int| 0 <= k < out@.len() implies (#[trigger] out@[k])@.sibling_index
                == k + 1 by {
                assert(seq_views(out@)[k] == out@[k]@);
            }
        }
        out
    }

    /// Appends one child of `parent_id` per content string, in input order.
    /// New children come after any existing ones: their sibling indexes are
    /// the consecutive integers starting at one past the count of existing
    /// children, and their ids continue the id counter. Nothing is inserted
    /// unless everything is: an unknown parent, an empty content string or
    /// an exhausted id space leaves the tree untouched.
    #[verifier::rlimit(50)]
    pub fn insert_children(
        &mut self,
        parent_id: u64,
        contents: Vec<String>,
        role: Role,
    ) -> (r: Result<Vec<u64>, RustGPTError>)
        ensures
            ({
                let s0 = old(self)@;
                let n0 = old(self).spec_next_id();
                let cs = content_views(contents@);
                &&& (r is Err ==> final(self)@ == s0 && final(self).spec_next_id() == n0)
                &&& (r matches Err(e) ==> (e is MessageNotPartOfConversation || e is BadMessage))
                &&& ((r matches Err(e) && e is MessageNotPartOfConversation) <==> !has_id(
                    s0,
                    parent_id,
                ))
                &&& ((r matches Err(e) && e is BadMessage) <==> (has_id(s0, parent_id) && ((
                exists|k: int| 0 <= k < cs.len() && (#[trigger] cs[k]).len() == 0) || n0 + cs.len()
                    > u64::MAX)))
                &&& (r matches Ok(ids) ==> {
                    &&& has_id(s0, parent_id)
                    &&& (forall|k: int| 0 <= k < cs.len() ==> (#[trigger] cs[k]).len() > 0)
                    &&& n0 + cs.len() <= u64::MAX
                    &&& ids@.len() == cs.len()
                    &&& (forall|k: int| 0 <= k < cs.len() ==> ids@[k] == n0 + k)
                    &&& final(self)@ =~= s0 + new_children(s0, parent_id, cs, n0, role)
                    &&& final(self).spec_next_id() == n0 + cs.len()
                })
            }),
    {
        proof {
            use_type_invariant(&*self);
        }
        let ghost s0 = self@;
        let ghost n0 = self.next_id;
        let ghost cs = content_views(contents@);

        // The parent must be part of the tree.
        if self.index_of(parent_id).is_none() {
            return Err(RustGPTError::MessageNotPartOfConversation);
        }
        // Every content string must be non-empty.
        let m = contents.len();
        for k in 0..m
            invariant
                m == contents@.len(),
                cs == content_views(contents@),
                s0 == self@,
                n0 == self.next_id,
                has_id(s0, parent_id),
                forall|j: int| 0 <= j < k ==> (#[trigger] cs[j]).len() > 0,
        {
            proof {
                assert(cs[k as int] == contents@[k as int]@);
            }
            if contents[k].as_str().is_empty() {
                return Err(
                    RustGPTError::BadMessage(String::from_str("message must have content")),
                );
            }
        }
        // There must be ids left for the whole batch.
        if (m as u64) > u64::MAX - self.next_id {
            return Err(RustGPTError::BadMessage(String::from_str("id space exhausted")));
        }

        // Count the children the parent already has.
        let n = self.msgs.len();
        let mut base: u64 = 0;
        for i in 0..n
            invariant
                n == self@.len(),
                base == child_count(self@.take(i as int), parent_id),
                base <= i,
        {
            proof {
                assert(self@.take(i + 1).drop_last() =~= self@.take(i as int));
                assert(self@.take(i + 1).last() == self@[i as int]);
                lemma_children_in_len(self@.take(i + 1), parent_id);
            }
            let is_child = match self.msgs[i].parent_id {
                Some(p) => p == parent_id,
                None => false,
            };
            if is_child {
                base = base + 1;
            }
        }
        proof {
            assert(self@.take(n as int) =~= self@);
            lemma_id_lower_bound(self@, n - 1);
        }

        // Rebuild the arena: the old messages followed by the new children.
        let ghost nc = new_children(s0, parent_id, cs, n0, role);
        let mut new_msgs: Vec<Message> = Vec::new();
        for i in 0..n
            invariant
                n == self@.len(),
                new_msgs@.len() == i,
                forall|j: int| 0 <= j < i ==> (#[trigger] new_msgs@[j]) == self.msgs@[j],
        {
            new_msgs.push(self.msgs[i].clone());
        }
        let mut ids: Vec<u64> = Vec::new();
        for k in 0..m
            invariant
                m == contents@.len(),
                cs == content_views(contents@),
                nc == new_children(s0, parent_id, cs, n0, role),
                s0 == self@,
                n0 == self.next_id,
                n == self@.len(),
                n <= n0,
                base == child_count(s0, parent_id),
                base <= n,
                n0 + m <= u64::MAX,
                ids@.len() == k,
                forall|j: int| 0 <= j < k ==> (#[trigger] ids@[j]) == n0 + j,
                new_msgs@.len() == n + k,
                forall|j: int| 0 <= j < n ==> (#[trigger] new_msgs@[j]) == self.msgs@[j],
                forall|j: int| 0 <= j < k ==> (#[trigger] new_msgs@[n + j])@ == nc[j],
                forall|j: int| 0 <= j < m ==> (#[trigger] cs[j]).len() > 0,
        {
            let id = self.next_id + (k as u64);
            let sib = base + (k as u64) + 1;
            proof {
                assert(cs[k as int] == contents@[k as int]@);
            }
            let msg = Message {
                id,
                parent_id: Some(parent_id),
                sibling_index: sib,
                role,
                content: contents[k].clone(),
            };
            proof {
                assert(msg@ == nc[k as int]);
            }
            new_msgs.push(msg);
            ids.push(id);
        }
        proof {
            assert forall|j: int| 0 <= j < n implies seq_views(new_msgs@)[j] == (s0 + nc)[j] by {
                assert(new_msgs@[j] == self.msgs@[j]);
            }
            assert forall|j: int| n <= j < n + m implies seq_views(new_msgs@)[j] == (s0 + nc)[j] by {
                assert(new_msgs@[n + (j - n)]@ == nc[j - n]);
            }
            assert(seq_views(new_msgs@) =~= s0 + nc);
            lemma_append_children_wf(s0, parent_id, cs, n0, role);
        }
        self.next_id = self.next_id + (m as u64);
        self.msgs = new_msgs;
        Ok(ids)
    }

    /// All siblings of the message carrying `id`, the message itself
    /// included, in ascending sibling order; the root, having no parent,
    /// is its own single sibling. Fails exactly on an unknown id.
    pub fn siblings_of(&self, id: u64) -> (r: Result<Vec<Message>, RustGPTError>)
        ensures
            r is Err <==> !has_id(self@, id),
            r matches Err(e) ==> e is MessageNotPartOfConversation,
            r matches Ok(v) ==> ({
                let m = msg_with_id(self@, id);
                &&& (m.parent_id is None ==> seq_views(v@) =~= seq![m])
                &&& (m.parent_id matches Some(p) ==> seq_views(v@) =~= children_in(self@, p))
                &&& v@.len() >= 1
                &&& exists|k: int| 0 <= k < v@.len() && (#[trigger] v@[k])@ == m
            }),
    {
        proof {
            use_type_invariant(self);
        }
        let idx = match self.index_of(id) {
            None => {
                return Err(RustGPTError::MessageNotPartOfConversation);
            },
            Some(i) => i,
        };
        proof {
            assert(self@[idx as int] == self.msgs@[idx as int]@);
            lemma_idx_of_id(self@, idx as int);
        }
        match self.msgs[idx].parent_id {
            None => {
                let mut v: Vec<Message> = Vec::new();
                v.push(self.msgs[idx].clone());
                proof {
                    assert(seq_views(v@) =~= seq![self@[idx as int]]);
                    assert(v@[0]@ == msg_with_id(self@, id));
                }
                Ok(v)
            },
            Some(p) => {
                let v = self.children_of(p);
                proof {
                    lemma_children_in_contains(self@, p, idx as int);
                    let k = choose|k: int|
                        0 <= k < children_in(self@, p).len() && children_in(self@, p)[k]
                            == self@[idx as int];
                    assert(seq_views(v@)[k] == v@[k]@);
                    assert(v@[k]@ == msg_with_id(self@, id));
                }
                Ok(v)
            },
        }
    }

    /// The frontier of the conversation: every message that is the parent
    /// of no other message, in arena (equivalently: ascending id) order.
    /// Never empty — the youngest message is always a leaf.
    pub fn frontier(&self) -> (r: Vec<Message>)
        ensures
            seq_views(r@) =~= leaves_in(self@, self@),
            forall|k: int| 0 <= k < r@.len() ==> is_leaf_in(self@, (#[trigger] r@[k])@.id),
            r@.len() >= 1,
    {
        proof {
            use_type_invariant(self);
        }
        let n = self.msgs.len();
        let mut out: Vec<Message> = Vec::new();
        for i in 0..n
            invariant
                n == self@.len(),
                seq_views(out@) =~= leaves_in(self@, self@.take(i as int)),
        {
            proof {
                assert(self@[i as int] == self.msgs@[i as int]@);
            }
            let id = self.msgs[i].id;
            let mut has_child = false;
            for j in 0..n
                invariant
                    n == self@.len(),
                    0 <= i < n,
                    id == self@[i as int].id,
                    has_child <==> exists|t: int|
                        0 <= t < j && (#[trigger] self@[t].parent_id) == Some(id),
            {
                proof {
                    assert(self@[j as int] == self.msgs@[j as int]@);
                }
                let is_parent = match self.msgs[j].parent_id {
                    Some(p) => p == id,
                    None => false,
                };
                if is_parent {
                    proof {
                        assert(self@[j as int].parent_id == Some(id));
                    }
                    has_child = true;
                } else {
                    proof {
                        assert(self@[j as int].parent_id != Some(id));
                    }
                }
            }
            proof {
                assert(self@.take(i + 1).drop_last() =~= self@.take(i as int));
                assert(self@.take(i + 1).last() == self@[i as int]);
            }
            if !has_child {
                out.push(self.msgs[i].clone());
            }
        }
        proof {
            assert(self@.take(n as int) =~= self@);
            lemma_leaves_structure(self@, self@);
            lemma_last_is_leaf(self@);
            lemma_leaves_contains(self@, self@, self@.len() - 1);
            assert forall|k: int| 0 <= k < out@.len() implies is_leaf_in(
                self@,
                (#[trigger] out@[k])@.id,
            ) by {
                assert(seq_views(out@)[k] == out@[k]@);
            }
        }
        out
    }

    /// The arena position of the arena-first child of `parent_id`; `None`
    /// exactly when the message is a leaf (or the id is unknown).
    fn first_child_index(&self, parent_id: u64) -> (r: Option<usize>)
        ensures
            r matches Some(j) ==> j < self@.len() && self@[j as int].parent_id == Some(parent_id)
                && (forall|t: int|
                0 <= t < j ==> (#[trigger] self@[t].parent_id) != Some(parent_id)),
            r is None ==> is_leaf_in(self@, parent_id),
    {
        proof {
            use_type_invariant(self);
        }
        let n = self.msgs.len();
        for j in 0..n
            invariant
                n == self@.len(),
                forall|t: int| 0 <= t < j ==> (#[trigger] self@[t].parent_id) != Some(parent_id),
        {
            proof {
                assert(self@[j as int] == self.msgs@[j as int]@);
            }
            let is_child = match self.msgs[j].parent_id {
                Some(p) => p == parent_id,
                None => false,
            };
            if is_child {
                return Some(j);
            }
        }
        None
    }

    /// The chain of messages from the root down to the message carrying
    /// `id`, both inclusive: exactly what a completion request sends. Fails
    /// exactly on an unknown id.
    #[verifier::rlimit(100)]
    pub fn chain_to(&self, id: u64) -> (r: Result<Vec<Message>, RustGPTError>)
        ensures
            r is Err <==> !has_id(self@, id),
            r matches Err(e) ==> e is MessageNotPartOfConversation,
            r matches Ok(v) ==> chain_shape(self@, seq_views(v@), id),
    {
        proof {
            use_type_invariant(self);
        }
        let start = match self.index_of(id) {
            None => {
                return Err(RustGPTError::MessageNotPartOfConversation);
            },
            Some(i) => i,
        };
        // Walk from the anchor up to the root, collecting arena positions.
        let mut up: Vec<usize> = Vec::new();
        let mut cur = start;
        up.push(cur);
        loop
            invariant
                cur < self@.len(),
                up@.len() >= 1,
                up@[0] == start,
                start < self@.len(),
                self@[start as int].id == id,
                up@[up@.len() - 1] == cur,
                forall|t: int| 0 <= t < up@.len() ==> (#[trigger] up@[t]) < self@.len(),
                forall|t: int|
                    0 <= t < up@.len() - 1 ==> self@[#[trigger] up@[t] as int].parent_id == Some(
                        self@[up@[t + 1] as int].id,
                    ),
            ensures
                cur < self@.len(),
                self@[cur as int].parent_id is None,
                up@.len() >= 1,
                up@[0] == start,
                up@[up@.len() - 1] == cur,
                forall|t: int| 0 <= t < up@.len() ==> (#[trigger] up@[t]) < self@.len(),
                forall|t: int|
                    0 <= t < up@.len() - 1 ==> self@[#[trigger] up@[t] as int].parent_id == Some(
                        self@[up@[t + 1] as int].id,
                    ),
            decreases cur,
        {
            proof {
                use_type_invariant(self);
                assert(self@[cur as int] == self.msgs@[cur as int]@);
            }
            match self.msgs[cur].parent_id {
                None => {
                    break ;
                },
                Some(pid) => {
                    proof {
                        assert(cur >= 1) by {
                            if cur == 0 {
                                assert(self@[0].parent_id is None);
                            }
                        }
                        assert(parent_resolves_before(self@, cur as int));
                        let j = choose|j: int|
                            0 <= j < cur && (#[trigger] self@[j].id) == self@[
                                cur as int
                            ].parent_id->0;
                        assert(has_id(self@, pid)) by {
                            assert(self@[j].id == pid);
                        }
                    }
                    let pi = self.index_of(pid).unwrap();
                    proof {
                        let j = choose|j: int|
                            0 <= j < cur && (#[trigger] self@[j].id) == self@[
                                cur as int
                            ].parent_id->0;
                        lemma_idx_of_id(self@, j);
                        lemma_idx_of_id(self@, pi as int);
                        assert(pi == j);
                    }
                    up.push(pi);
                    cur = pi;
                },
            }
        }
        proof {
            use_type_invariant(self);
            assert(cur == 0) by {
                if cur >= 1 {
                    assert(self@[cur as int].parent_id is Some);
                }
            }
        }
        // Reverse the collected positions into root-to-anchor order.
        let mut v: Vec<Message> = Vec::new();
        let ghost l = up@.len() as int;
        let mut t = up.len();
        while t > 0
            invariant
                t <= l,
                l == up@.len(),
                v@.len() == l - t,
                forall|q: int| 0 <= q < up@.len() ==> (#[trigger] up@[q]) < self.msgs@.len(),
                forall|q: int|
                    0 <= q < v@.len() ==> (#[trigger] v@[q]) == self.msgs@[up@[l - 1 - q] as int],
            decreases t,
        {
            t = t - 1;
            v.push(self.msgs[up[t]].clone());
        }
        proof {
            use_type_invariant(self);
            let pv = seq_views(v@);
            assert forall|q: int| 0 <= q < pv.len() implies #[trigger] pv[q] == self@[up@[l - 1
                - q] as int] by {
                assert(v@[q] == self.msgs@[up@[l - 1 - q] as int]);
            }
            assert(pv[0] == self@[0]);
            assert forall|i: int| 0 <= i < pv.len() implies has_id(self@, pv[i].id)
                && pv[i] == msg_with_id(self@, pv[i].id) by {
                lemma_idx_of_id(self@, up@[l - 1 - i] as int);
            }
            assert forall|i: int| 0 <= i < pv.len() - 1 implies (#[trigger] pv[i + 1]).parent_id
                == Some(pv[i].id) by {
                assert(self@[up@[l - 1 - (i + 1)] as int].parent_id == Some(
                    self@[up@[l - 1 - i] as int].id,
                ));
            }
            lemma_idx_of_id(self@, start as int);
            assert(pv[pv.len() - 1] == msg_with_id(self@, id));
        }
        Ok(v)
    }

    /// One linear view of the conversation: from the root through the
    /// anchor (the root when none is given), then on to a leaf by always
    /// taking the lowest-index child. Fails exactly on an unknown anchor.
    pub fn path_to(&self, anchor_id: Option<u64>) -> (r: Result<Vec<Message>, RustGPTError>)
        ensures
            r is Err <==> (anchor_id matches Some(a) && !has_id(self@, a)),
            r matches Err(e) ==> e is MessageNotPartOfConversation,
            r matches Ok(v) ==> path_shape(self@, seq_views(v@)) && (match anchor_id {
                Some(a) => exists|k: int|
                    0 <= k < seq_views(v@).len() && (#[trigger] seq_views(v@)[k]).id == a
                        && first_child_steps(self@, seq_views(v@), k),
                None => first_child_steps(self@, seq_views(v@), 0),
            }),
    {
        proof {
            use_type_invariant(self);
        }
        let aid = match anchor_id {
            Some(a) => a,
            None => {
                proof {
                    lemma_idx_of_id(self@, 0);
                }
                self.msgs[0].id
            },
        };
        let mut v = match self.chain_to(aid) {
            Err(e) => {
                return Err(e);
            },
            Ok(v) => v,
        };
        let ghost k0 = seq_views(v@).len() - 1;
        let mut cur = self.index_of(aid).unwrap();
        proof {
            lemma_idx_of_id(self@, cur as int);
            assert(seq_views(v@)[k0] == msg_with_id(self@, aid));
            assert(seq_views(v@)[k0] == self@[cur as int]);
        }
        loop
            invariant
                cur < self@.len(),
                0 <= k0 < seq_views(v@).len(),
                seq_views(v@)[k0].id == aid,
                seq_views(v@)[0] == self@[0],
                seq_views(v@)[seq_views(v@).len() - 1] == self@[cur as int],
                forall|i: int|
                    0 <= i < seq_views(v@).len() ==> has_id(self@, (#[trigger] seq_views(v@)[i]).id)
                        && seq_views(v@)[i] == msg_with_id(self@, seq_views(v@)[i].id),
                forall|i: int|
                    0 <= i < seq_views(v@).len() - 1 ==> (#[trigger] seq_views(v@)[i
                        + 1]).parent_id == Some(seq_views(v@)[i].id),
                first_child_steps(self@, seq_views(v@), k0),
            ensures
                cur < self@.len(),
                0 <= k0 < seq_views(v@).len(),
                seq_views(v@)[k0].id == aid,
                seq_views(v@)[0] == self@[0],
                seq_views(v@)[seq_views(v@).len() - 1] == self@[cur as int],
                is_leaf_in(self@, self@[cur as int].id),
                forall|i: int|
                    0 <= i < seq_views(v@).len() ==> has_id(self@, (#[trigger] seq_views(v@)[i]).id)
                        && seq_views(v@)[i] == msg_with_id(self@, seq_views(v@)[i].id),
                forall|i: int|
                    0 <= i < seq_views(v@).len() - 1 ==> (#[trigger] seq_views(v@)[i
                        + 1]).parent_id == Some(seq_views(v@)[i].id),
                first_child_steps(self@, seq_views(v@), k0),
            decreases self@.len() - cur,
        {
            proof {
                use_type_invariant(self);
                assert(self@[cur as int] == self.msgs@[cur as int]@);
            }
            let id_cur = self.msgs[cur].id;
            match self.first_child_index(id_cur) {
                None => {
                    break ;
                },
                Some(j) => {
                    proof {
                        lemma_children_first(self@, id_cur, j as int);
                        lemma_child_position_greater(self@, cur as int, j as int);
                        lemma_idx_of_id(self@, j as int);
                        assert(self@[j as int] == self.msgs@[j as int]@);
                    }
                    let ghost old_pv = seq_views(v@);
                    v.push(self.msgs[j].clone());
                    proof {
                        assert(seq_views(v@) =~= old_pv.push(self@[j as int]));
                    }
                    cur = j;
                },
            }
        }
        proof {
            let pv = seq_views(v@);
            assert(self@[0] == self.msgs@[0]@);
            match anchor_id {

                Some(a) => {
                    assert(0 <= k0 < pv.len() && pv[k0].id == a && first_child_steps(
                        self@,
                        pv,
                        k0,
                    ));
                },
                None => {
                    lemma_idx_of_id(self@, 0);
                    assert(aid == self@[0].id);
                    if k0 != 0 {
                        assert(pv[k0] == msg_with_id(self@, pv[k0].id));
                        assert(pv[k0] == self@[0]);
                        assert(pv[(k0 - 1) + 1].parent_id == Some(pv[k0 - 1].id));
                        assert(false);
                    }
                },
            }
        }
        Ok(v)
    }

    /// A copy of the whole arena in creation order: what persistence
    /// writes out. What it yields always satisfies `loadable`.
    pub fn to_messages(&self) -> (r: Vec<Message>)
        ensures
            seq_views(r@) =~= self@,
            loadable(self@),
    {
        proof {
            use_type_invariant(self);
        }
        let n = self.msgs.len();
        let mut out: Vec<Message> = Vec::new();
        for i in 0..n
            invariant
                n == self@.len(),
                out@.len() == i,
                forall|j: int| 0 <= j < i ==> (#[trigger] out@[j]) == self.msgs@[j],
        {
            out.push(self.msgs[i].clone());
        }
        proof {
            assert forall|j: int| 0 <= j < n implies seq_views(out@)[j] == self@[j] by {
                assert(out@[j] == self.msgs@[j]);
            }
        }
        out
    }

    /// Rebuilds a tree from stored messages, checking every invariant the
    /// tree maintains; fails exactly when the data does not describe a
    /// well-formed tree with id space left. Nothing is silently repaired.
    #[verifier::rlimit(100)]
    pub fn from_messages(msgs: Vec<Message>) -> (r: Result<MessageTree, RustGPTError>)
        ensures
            r is Ok <==> loadable(seq_views(msgs@)),
            r matches Ok(t) ==> t@ =~= seq_views(msgs@),
            r matches Err(e) ==> e is CorruptAggregate,
    {
        let ghost s = seq_views(msgs@);
        proof {
            assert forall|j: int| 0 <= j < s.len() implies #[trigger] s[j] == msgs@[j]@ by {}
        }
        let n = msgs.len();
        if n == 0 {
            return Err(
                RustGPTError::CorruptAggregate(String::from_str("stored tree holds no messages")),
            );
        }
        if msgs[0].parent_id().is_some() {
            return Err(
                RustGPTError::CorruptAggregate(String::from_str("the root must have no parent")),
            );
        }
        if !matches!(*msgs[0].role(), Role::System) {
            return Err(
                RustGPTError::CorruptAggregate(String::from_str("the root role must be System")),
            );
        }
        let _ = msgs[0].content();
        let _ = msgs[0].index();
        for i in 1..n
            invariant
                n == msgs@.len(),
                n == s.len(),
                s == seq_views(msgs@),
                n >= 1,
                s[0].parent_id is None,
                s[0].role == Role::System,
                forall|j: int| 0 <= j < s.len() ==> #[trigger] s[j] == msgs@[j]@,
                forall|t: int| 0 <= t < i ==> msg_wf(#[trigger] s[t]),
                forall|a: int, b: int|
                    0 <= a < b < i ==> (#[trigger] s[a].id) < (#[trigger] s[b].id),
                forall|t: int| 1 <= t < i ==> (#[trigger] s[t].parent_id) is Some,
                forall|t: int| 1 <= t < i ==> #[trigger] parent_resolves_before(s, t),
                forall|t: int|
                    1 <= t < i ==> (#[trigger] s[t].sibling_index) == child_count(
                        s.take(t),
                        s[t].parent_id->0,
                    ) + 1,
        {
            let _ = msgs[i].content();
            let _ = msgs[i].index();
            if msgs[i - 1].id() >= msgs[i].id() {
                return Err(
                    RustGPTError::CorruptAggregate(
                        String::from_str("ids must grow in stored order"),
                    ),
                );
            }
            let pid = match msgs[i].parent_id() {
                None => {
                    return Err(
                        RustGPTError::CorruptAggregate(
                            String::from_str("only the root may lack a parent"),
                        ),
                    );
                },
                Some(p) => p,
            };
            let mut found = false;
            let mut cnt: u64 = 0;
            for j in 0..i
                invariant
                    n == msgs@.len(),
                    n == s.len(),
                    s == seq_views(msgs@),
                    forall|q: int| 0 <= q < s.len() ==> #[trigger] s[q] == msgs@[q]@,
                    1 <= i < n,
                    s[i as int].parent_id == Some(pid),
                    found <==> exists|t: int| 0 <= t < j && (#[trigger] s[t].id) == pid,
                    cnt == child_count(s.take(j as int), pid),
                    cnt <= j,
            {
                proof {
                    assert(s.take(j + 1).drop_last() =~= s.take(j as int));
                    assert(s.take(j + 1).last() == s[j as int]);
                    lemma_children_in_len(s.take(j + 1), pid);
                }
                if msgs[j].id() == pid {
                    found = true;
                }
                let is_child = match msgs[j].parent_id() {
                    Some(q) => q == pid,
                    None => false,
                };
                if is_child {
                    cnt = cnt + 1;
                }
            }
            if !found {
                proof {
                    if parent_resolves_before(s, i as int) {
                        let t = choose|t: int|
                            0 <= t < i && (#[trigger] s[t].id) == s[i as int].parent_id->0;
                        assert(s[t].id == pid);
                    }
                }
                return Err(
                    RustGPTError::CorruptAggregate(
                        String::from_str("a parent reference does not resolve"),
                    ),
                );
            }
            if msgs[i].index() != cnt + 1 {
                return Err(
                    RustGPTError::CorruptAggregate(
                        String::from_str("sibling indexes must count the children in order"),
                    ),
                );
            }
            proof {
                assert(parent_resolves_before(s, i as int));
            }
        }
        let last_id = msgs[n - 1].id();
        if last_id == u64::MAX {
            return Err(RustGPTError::CorruptAggregate(String::from_str("id space exhausted")));
        }
        proof {
            assert(tree_wf(s));
            assert forall|i: int| 0 <= i < s.len() implies (#[trigger] s[i].id) < last_id + 1 by {
                if i < s.len() - 1 {
                    assert(s[i].id < s[s.len() - 1].id);
                }
            }
        }
        Ok(MessageTree { msgs, next_id: last_id + 1 })
    }
}

/// Without any child of `p` in the arena, no child is collected.
proof fn lemma_children_empty(s: Seq<MessageView>, p: u64)
    requires
        forall|i: int| 0 <= i < s.len() ==> (#[trigger] s[i].parent_id) != Some(p),
    ensures
        children_in(s, p).len() == 0,
    decreases s.len(),
{
    if s.len() > 0 {
        lemma_children_empty(s.drop_last(), p);
    }
}

/// The first collected child of `p` is the arena-first message whose
/// parent is `p`.
proof fn lemma_children_first(s: Seq<MessageView>, p: u64, j: int)
    requires
        0 <= j < s.len(),
        s[j].parent_id == Some(p),
        forall|t: int| 0 <= t < j ==> (#[trigger] s[t].parent_id) != Some(p),
    ensures
        children_in(s, p).len() > 0,
        children_in(s, p).first() == s[j],
    decreases s.len(),
{
    if j == s.len() - 1 {
        lemma_children_empty(s.drop_last(), p);
    } else {
        lemma_children_first(s.drop_last(), p, j);
    }
}

/// A child sits strictly later in the arena than its parent.
proof fn lemma_child_position_greater(s: Seq<MessageView>, i: int, j: int)
    requires
        tree_wf(s),
        0 <= i < s.len(),
        0 <= j < s.len(),
        s[j].parent_id == Some(s[i].id),
    ensures
        j > i,
{
    assert(j >= 1) by {
        if j == 0 {
            assert(s[0].parent_id is None);
        }
    }
    assert(parent_resolves_before(s, j));
    let t = choose|t: int| 0 <= t < j && (#[trigger] s[t].id) == s[j].parent_id->0;
    lemma_idx_of_id(s, t);
    lemma_idx_of_id(s, i);
}

/// What a root-to-anchor chain is: it starts at the root, ends at the
/// anchor, steps from parent to child, and consists of tree messages.
pub open spec fn chain_shape(s: Seq<MessageView>, pv: Seq<MessageView>, id: u64) -> bool {
    &&& pv.len() >= 1
    &&& pv[0] == s[0]
    &&& pv[pv.len() - 1] == msg_with_id(s, id)
    &&& (forall|i: int|
        0 <= i < pv.len() ==> has_id(s, (#[trigger] pv[i]).id) && pv[i] == msg_with_id(
            s,
            pv[i].id,
        ))
    &&& (forall|i: int|
        0 <= i < pv.len() - 1 ==> (#[trigger] pv[i + 1]).parent_id == Some(pv[i].id))
}

/// What a linear view of the tree is: a chain from the root down to a
/// leaf, made of tree messages.
pub open spec fn path_shape(s: Seq<MessageView>, pv: Seq<MessageView>) -> bool {
    &&& pv.len() >= 1
    &&& pv[0] == s[0]
    &&& (forall|i: int|
        0 <= i < pv.len() ==> has_id(s, (#[trigger] pv[i]).id) && pv[i] == msg_with_id(
            s,
            pv[i].id,
        ))
    &&& (forall|i: int|
        0 <= i < pv.len() - 1 ==> (#[trigger] pv[i + 1]).parent_id == Some(pv[i].id))
    &&& is_leaf_in(s, pv[pv.len() - 1].id)
}

/// From position `k` on, the chain always follows the lowest-index child.
pub open spec fn first_child_steps(all: Seq<MessageView>, pv: Seq<MessageView>, k: int) -> bool {
    forall|i: int|
        k <= i < pv.len() - 1 ==> #[trigger] pv[i + 1] == children_in(all, pv[i].id).first()
}

/// What stored message data must satisfy to be accepted back as a tree:
/// the tree shape itself, and room left in the id space for new messages.
pub open spec fn loadable(msgs: Seq<MessageView>) -> bool {
    &&& tree_wf(msgs)
    &&& msgs[msgs.len() - 1].id < u64::MAX
}

/// The messages of `s` that are leaves of the tree `all`, in arena order.
pub open spec fn leaves_in(all: Seq<MessageView>, s: Seq<MessageView>) -> Seq<MessageView>
    decreases s.len(),
{
    if s.len() == 0 {
        Seq::empty()
    } else {
        let rest = leaves_in(all, s.drop_last());
        if is_leaf_in(all, s.last().id) {
            rest.push(s.last())
        } else {
            rest
        }
    }
}

/// Every collected leaf is a leaf of the tree and occurs in the arena.
proof fn lemma_leaves_structure(all: Seq<MessageView>, s: Seq<MessageView>)
    ensures
        forall|k: int|
            0 <= k < leaves_in(all, s).len() ==> is_leaf_in(
                all,
                (#[trigger] leaves_in(all, s)[k]).id,
            ),
        forall|k: int|
            0 <= k < leaves_in(all, s).len() ==> exists|i: int|
                0 <= i < s.len() && s[i] == #[trigger] leaves_in(all, s)[k],
    decreases s.len(),
{
    if s.len() > 0 {
        lemma_leaves_structure(all, s.drop_last());
        assert forall|k: int| 0 <= k < leaves_in(all, s).len() implies exists|i: int|
            0 <= i < s.len() && s[i] == #[trigger] leaves_in(all, s)[k] by {
            let rest = leaves_in(all, s.drop_last());
            if k < rest.len() {
                let i = choose|i: int| 0 <= i < s.drop_last().len() && s.drop_last()[i] == rest[k];
                assert(s[i] == leaves_in(all, s)[k]);
            } else {
                assert(s[s.len() - 1] == leaves_in(all, s)[k]);
            }
        }
    }
}

/// An arena message that is a leaf is among the collected leaves.
proof fn lemma_leaves_contains(all: Seq<MessageView>, s: Seq<MessageView>, i: int)
    requires
        0 <= i < s.len(),
        is_leaf_in(all, s[i].id),
    ensures
        leaves_in(all, s).contains(s[i]),
    decreases s.len(),
{
    if i < s.len() - 1 {
        lemma_leaves_contains(all, s.drop_last(), i);
        let rest = leaves_in(all, s.drop_last());
        let k = choose|k: int| 0 <= k < rest.len() && rest[k] == s.drop_last()[i];
        assert(leaves_in(all, s)[k] == s[i]);
    } else {
        let l = leaves_in(all, s);
        assert(l[l.len() - 1] == s[i]);
    }
}

/// The root is the unique parentless message, and every other message's
/// parent id resolves within the same tree.
pub proof fn lemma_root_unique(s: Seq<MessageView>)
    requires
        tree_wf(s),
    ensures
        s.len() >= 1,
        s[0].parent_id is None,
        forall|i: int| 0 < i < s.len() ==> (#[trigger] s[i].parent_id) is Some,
        forall|i: int| 0 < i < s.len() ==> has_id(s, (#[trigger] s[i].parent_id)->0),
{
    assert forall|i: int| 0 < i < s.len() implies has_id(s, (#[trigger] s[i].parent_id)->0) by {
        assert(parent_resolves_before(s, i));
        let j = choose|j: int| 0 <= j < i && (#[trigger] s[j].id) == s[i].parent_id->0;
        assert(0 <= j < s.len() && s[j].id == s[i].parent_id->0);
    }
}

} // verus!
