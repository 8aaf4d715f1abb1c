//! The conversation service: one message tree together with default
//! completion parameters, a display name and a storage location.
//!
//! Mutations go through `add_queries` and `do_completion`; reads go through
//! the frontier, path, sibling and iterator queries; persistence goes
//! through `to_data` and `from_data`, with the codec itself left to the
//! caller.

use vstd::prelude::*;

use crate::params::CompletionParameters;
use crate::tree::{
    children_in, content_views, has_id, is_leaf_in, leaves_in, lemma_children_structure, lemma_idx_of_id,
    loadable, msg_with_id, new_children, seq_views, tree_wf, chain_shape, first_child_steps,
    path_shape, Message, MessageTree, MessageView, Role,
};
use crate::RustGPTError;

verus! {

/// The mathematical content of a conversation: its parameters, its
/// messages, its name and where it is stored.
pub ghost struct ConversationView {
    pub params: CompletionParameters,
    pub msgs: Seq<MessageView>,
    pub name: Seq<char>,
    pub path: Seq<char>,
}

/// The external completion provider: given the ordered root-to-query chain
/// and the effective parameters, it answers with the sampled completion
/// texts, or with a failure description. Nothing is assumed of
/// implementations; `do_completion` states what holds whatever comes back.
pub trait CompletionProvider {
    fn complete(&self, messages: Vec<Message>, parameters: CompletionParameters) -> Result<
        Vec<String>,
        String,
    >;
}

/// The persisted form of a conversation: parameters, messages and name.
/// The storage location is deliberately absent — it is bound anew on load.
pub struct ConversationData {
    pub default_parameters: CompletionParameters,
    pub interactions: Vec<Message>,
    pub name: String,
}

/// A conversation with the completion service: a message tree, the default
/// parameters of its completion requests, a display name and the location
/// it is stored at.
pub struct Conversation {
    default_parameters: CompletionParameters,
    tree: MessageTree,
    name: String,
    path: String,
}

impl View for Conversation {
    type V = ConversationView;

    closed spec fn view(&self) -> ConversationView {
        ConversationView {
            params: self.default_parameters,
            msgs: self.tree@,
            name: self.name@,
            path: self.path@,
        }
    }
}

/// How one completion run changes a conversation: the provider answered
/// with the non-empty response texts `rs`, and exactly those were appended
/// as assistant children of the queried message.
pub open spec fn completion_applied(
    s0: Seq<MessageView>,
    n0: u64,
    message_id: u64,
    rs: Seq<Seq<char>>,
    out: Seq<MessageView>,
    s1: Seq<MessageView>,
    n1: u64,
) -> bool {
    &&& rs.len() >= 1
    &&& (forall|k: int| 0 <= k < rs.len() ==> (#[trigger] rs[k]).len() > 0)
    &&& n0 + rs.len() <= u64::MAX
    &&& out == new_children(s0, message_id, rs, n0, Role::Assistant)
    &&& s1 == s0 + new_children(s0, message_id, rs, n0, Role::Assistant)
    &&& n1 == n0 + rs.len()
}

impl Conversation {
    /// The id the next created message will carry.
    pub closed spec fn spec_next_id(self) -> u64 {
        self.tree.spec_next_id()
    }

    /// A fresh conversation: the given parameters, an empty name, the given
    /// storage location, and a tree holding exactly the system message.
    /// Fails exactly on an empty system message.
    pub fn build(
        parameters: CompletionParameters,
        path: String,
        system_message: &str,
    ) -> (r: Result<Conversation, RustGPTError>)
        ensures
            r is Ok <==> system_message@.len() > 0,
            r matches Ok(c) ==> ({
                &&& c@.params == parameters
                &&& c@.msgs =~= seq![
                    MessageView {
                        id: 0,
                        parent_id: None,
                        sibling_index: 1,
                        role: Role::System,
                        content: system_message@,
                    },
                ]
                &&& c@.name =~= Seq::<char>::empty()
                &&& c@.path == path@
                &&& c.spec_next_id() == 1
            }),
            r matches Err(e) ==> e is BadMessage,
    {
        let tree = match MessageTree::create(String::from_str(system_message)) {
            Err(e) => {
                return Err(e);
            },
            Ok(t) => t,
        };
        Ok(Conversation { default_parameters: parameters, tree, name: String::new(), path })
    }

    /// The unique message without a parent: the system root.
    pub fn get_root_message(&self) -> (r: Message)
        ensures
            self@.msgs.len() >= 1,
            r@ == self@.msgs[0],
            r@.parent_id is None,
            r@.role == Role::System,
    {
        self.tree.root()
    }

    /// The frontier of the conversation: every message that is the parent
    /// of no other message, in ascending id order. Never empty.
    pub fn get_latest_messages(&self) -> (r: Vec<Message>)
        ensures
            seq_views(r@) =~= leaves_in(self@.msgs, self@.msgs),
            forall|k: int| 0 <= k < r@.len() ==> is_leaf_in(self@.msgs, (#[trigger] r@[k])@.id),
            r@.len() >= 1,
    {
        self.tree.frontier()
    }

    /// The message carrying `id`, if any.
    pub fn get_message(&self, id: u64) -> (r: Option<Message>)
        ensures
            r is Some <==> has_id(self@.msgs, id),
            r matches Some(m) ==> m@ == msg_with_id(self@.msgs, id),
    {
        self.tree.get(id)
    }

    /// All children of the message carrying `parent_id`, in ascending
    /// sibling order.
    pub fn get_children(&self, parent_id: u64) -> (r: Vec<Message>)
        ensures
            seq_views(r@) =~= children_in(self@.msgs, parent_id),
            forall|k: int| 0 <= k < r@.len() ==> (#[trigger] r@[k])@.sibling_index == k + 1,
    {
        self.tree.children_of(parent_id)
    }

    /// All siblings of the message carrying `id`, itself included, in
    /// ascending sibling order; never empty. Fails exactly on an unknown
    /// id.
    pub fn get_message_siblings(&self, id: u64) -> (r: Result<Vec<Message>, RustGPTError>)
        ensures
            r is Err <==> !has_id(self@.msgs, id),
            r matches Err(e) ==> e is MessageNotPartOfConversation,
            r matches Ok(v) ==> ({
                let m = msg_with_id(self@.msgs, id);
                &&& (m.parent_id is None ==> seq_views(v@) =~= seq![m])
                &&& (m.parent_id matches Some(p) ==> seq_views(v@) =~= children_in(self@.msgs, p))
                &&& v@.len() >= 1
                &&& exists|k: int| 0 <= k < v@.len() && (#[trigger] v@[k])@ == m
            }),
    {
        self.tree.siblings_of(id)
    }

    /// One linear view of the conversation: from the root through the
    /// anchor (the root when none is given), then on to a leaf by always
    /// taking the lowest-index child. Fails exactly on an unknown anchor.
    pub fn get_message_list(&self, anchor_message_id: Option<u64>) -> (r: Result<
        Vec<Message>,
        RustGPTError,
    >)
        ensures
            r is Err <==> (anchor_message_id matches Some(a) && !has_id(self@.msgs, a)),
            r matches Err(e) ==> e is MessageNotPartOfConversation,
            r matches Ok(v) ==> path_shape(self@.msgs, seq_views(v@)) && (match anchor_message_id {
                Some(a) => exists|k: int|
                    0 <= k < seq_views(v@).len() && (#[trigger] seq_views(v@)[k]).id == a
                        && first_child_steps(self@.msgs, seq_views(v@), k),
                None => first_child_steps(self@.msgs, seq_views(v@), 0),
            }),
    {
        self.tree.path_to(anchor_message_id)
    }

    /// The chain of messages from the root down to the message carrying
    /// `id`: exactly what a completion request for that message sends, with
    /// no sibling branches. Fails exactly on an unknown id.
    pub fn get_message_chain(&self, id: u64) -> (r: Result<Vec<Message>, RustGPTError>)
        ensures
            r is Err <==> !has_id(self@.msgs, id),
            r matches Err(e) ==> e is MessageNotPartOfConversation,
            r matches Ok(v) ==> chain_shape(self@.msgs, seq_views(v@), id),
    {
        self.tree.chain_to(id)
    }

    /// The parameters one completion request runs with: the conversation's
    /// defaults, with the sample count overridden when one is given.
    pub fn completion_parameters(&self, n_completions: Option<u8>) -> (r: CompletionParameters)
        ensures
            r.spec_temperature() == self@.params.spec_temperature(),
            r.spec_model() == self@.params.spec_model(),
            r.spec_max_tokens() == self@.params.spec_max_tokens(),
            r.spec_n() == match n_completions {
                Some(n) => n,
                None => self@.params.spec_n(),
            },
    {
        match n_completions {
            Some(n) => self.default_parameters.with_n(n),
            None => self.default_parameters,
        }
    }

    /// Appends children to the message carrying `parent_id`, one per
    /// content string and all with the given role, exactly as
    /// `MessageTree::insert_children` does. Role discipline is the caller's
    /// business here; `add_queries` and `do_completion` enforce it.
    pub fn add_children_to_message(
        &mut self,
        parent_id: u64,
        messages: Vec<String>,
        role: Role,
    ) -> (r: Result<Vec<u64>, RustGPTError>)
        ensures
            ({
                let s0 = old(self)@.msgs;
                let n0 = old(self).spec_next_id();
                let cs = content_views(messages@);
                &&& (r is Err ==> final(self)@ == old(self)@ && final(self).spec_next_id() == n0)
                &&& (r matches Err(e) ==> (e is MessageNotPartOfConversation || e is BadMessage))
                &&& ((r matches Err(e) && e is MessageNotPartOfConversation) <==> !has_id(
                    s0,
                    parent_id,
                ))
                &&& ((r matches Err(e) && e is BadMessage) <==> (has_id(s0, parent_id) && ((
                exists|k: int| 0 <= k < cs.len() && (#[trigger] cs[k]).len() == 0) || n0 + cs.len()
                    > u64::MAX)))
                &&& (r matches Ok(ids) ==> {
                    &&& has_id(s0, parent_id)
                    &&& ids@.len() == cs.len()
                    &&& (forall|k: int| 0 <= k < cs.len() ==> ids@[k] == n0 + k)
                    &&& final(self)@.msgs =~= s0 + new_children(s0, parent_id, cs, n0, role)
                    &&& final(self).spec_next_id() == n0 + cs.len()
                    &&& final(self)@.params == old(self)@.params
                    &&& final(self)@.name == old(self)@.name
                    &&& final(self)@.path == old(self)@.path
                })
            }),
    {
        self.tree.insert_children(parent_id, messages, role)
    }

    /// Inserts children and hands back the inserted messages themselves.
    fn insert_and_collect(
        &mut self,
        parent_id: u64,
        contents: Vec<String>,
        role: Role,
    ) -> (r: Result<Vec<Message>, RustGPTError>)
        ensures
            ({
                let s0 = old(self)@.msgs;
                let n0 = old(self).spec_next_id();
                let cs = content_views(contents@);
                &&& (r is Err ==> final(self)@ == old(self)@ && final(self).spec_next_id() == n0)
                &&& (r matches Err(e) ==> (e is MessageNotPartOfConversation || e is BadMessage))
                &&& ((r matches Err(e) && e is MessageNotPartOfConversation) <==> !has_id(
                    s0,
                    parent_id,
                ))
                &&& ((r matches Err(e) && e is BadMessage) <==> (has_id(s0, parent_id) && ((
                exists|k: int| 0 <= k < cs.len() && (#[trigger] cs[k]).len() == 0) || n0 + cs.len()
                    > u64::MAX)))
                &&& (r matches Ok(msgs) ==> {
                    &&& has_id(s0, parent_id)
                    &&& (forall|k: int| 0 <= k < cs.len() ==> (#[trigger] cs[k]).len() > 0)
                    &&& n0 + cs.len() <= u64::MAX
                    &&& seq_views(msgs@) =~= new_children(s0, parent_id, cs, n0, role)
                    &&& final(self)@.msgs =~= s0 + new_children(s0, parent_id, cs, n0, role)
                    &&& final(self).spec_next_id() == n0 + cs.len()
                    &&& final(self)@.params == old(self)@.params
                    &&& final(self)@.name == old(self)@.name
                    &&& final(self)@.path == old(self)@.path
                })
            }),
    {
        let ghost s0 = self@.msgs;
        let ghost n0 = self.spec_next_id();
        let ghost cs = content_views(contents@);
        let ghost nc = new_children(s0, parent_id, cs, n0, role);
        let ids = match self.tree.insert_children(parent_id, contents, role) {
            Err(e) => {
                return Err(e);
            },
            Ok(ids) => ids,
        };
        proof {
            use_type_invariant(&self.tree);
        }
        let m = ids.len();
        let mut out: Vec<Message> = Vec::new();
        for k in 0..m
            invariant
                m == ids@.len(),
                m == cs.len(),
                nc == new_children(s0, parent_id, cs, n0, role),
                self.tree@ == s0 + nc,
                tree_wf(self.tree@),
                n0 + m <= u64::MAX,
                forall|a: int, b: int|
                    0 <= a < b < self.tree@.len() ==> (#[trigger] self.tree@[a].id) < (
                    #[trigger] self.tree@[b].id),
                forall|j: int| 0 <= j < m ==> ids@[j] == n0 + j,
                s0.len() + m == self.tree@.len(),
                out@.len() == k,
                forall|j: int| 0 <= j < k ==> (#[trigger] out@[j])@ == nc[j],
        {
            proof {
                assert(self.tree@[s0.len() + k] == nc[k as int]);
                assert(self.tree@[s0.len() + k].id == ids@[k as int]);
                lemma_idx_of_id(self.tree@, s0.len() + k);
            }
            let msg = self.tree.get(ids[k]).unwrap();
            out.push(msg);
        }
        proof {
            assert forall|j: int| 0 <= j < m implies seq_views(out@)[j] == nc[j] by {
                assert(out@[j]@ == nc[j]);
            }
        }
        Ok(out)
    }

    /// Adds one user message per query under the message carrying
    /// `parent_id`, which must have role Assistant or System: queries only
    /// ever answer an assistant (or the system opening), preserving the
    /// alternation of roles. Returns the inserted messages in input order.
    pub fn add_queries(&mut self, parent_id: u64, queries: Vec<String>) -> (r: Result<
        Vec<Message>,
        RustGPTError,
    >)
        ensures
            ({
                let s0 = old(self)@.msgs;
                let n0 = old(self).spec_next_id();
                let cs = content_views(queries@);
                let role_ok = msg_with_id(s0, parent_id).role == Role::Assistant || msg_with_id(
                    s0,
                    parent_id,
                ).role == Role::System;
                &&& (r is Err ==> final(self)@ == old(self)@ && final(self).spec_next_id() == n0)
                &&& (r matches Err(e) ==> (e is MessageNotPartOfConversation
                    || e is InvalidMessageRole || e is BadMessage))
                &&& ((r matches Err(e) && e is MessageNotPartOfConversation) <==> !has_id(
                    s0,
                    parent_id,
                ))
                &&& ((r matches Err(e) && e is InvalidMessageRole) <==> (has_id(s0, parent_id)
                    && !role_ok))
                &&& ((r matches Err(e) && e is BadMessage) <==> (has_id(s0, parent_id) && role_ok
                    && ((exists|k: int| 0 <= k < cs.len() && (#[trigger] cs[k]).len() == 0) || n0
                    + cs.len() > u64::MAX)))
                &&& (r matches Ok(msgs) ==> {
                    &&& has_id(s0, parent_id)
                    &&& role_ok
                    &&& seq_views(msgs@) =~= new_children(s0, parent_id, cs, n0, Role::User)
                    &&& final(self)@.msgs =~= s0 + new_children(s0, parent_id, cs, n0, Role::User)
                    &&& final(self).spec_next_id() == n0 + cs.len()
                    &&& final(self)@.params == old(self)@.params
                    &&& final(self)@.name == old(self)@.name
                    &&& final(self)@.path == old(self)@.path
                })
            }),
    {
        let parent = match self.tree.get(parent_id) {
            None => {
                return Err(RustGPTError::MessageNotPartOfConversation);
            },
            Some(m) => m,
        };
        if !matches!(*parent.role(), Role::Assistant | Role::System) {
            return Err(RustGPTError::InvalidMessageRole);
        }
        self.insert_and_collect(parent_id, queries, Role::User)
    }

    /// Appends provider responses as assistant children of the user message
    /// carrying `message_id`. An empty response list is a failed
    /// completion: nothing is inserted, and the conversation is unchanged
    /// on every failure.
    pub fn apply_completion(&mut self, message_id: u64, responses: Vec<String>) -> (r: Result<
        Vec<Message>,
        RustGPTError,
    >)
        ensures
            ({
                let s0 = old(self)@.msgs;
                let n0 = old(self).spec_next_id();
                let cs = content_views(responses@);
                let is_user = msg_with_id(s0, message_id).role == Role::User;
                &&& (r is Err ==> final(self)@ == old(self)@ && final(self).spec_next_id() == n0)
                &&& (r matches Err(e) ==> (e is MessageNotPartOfConversation
                    || e is InvalidMessageRole || e is CompletionFailed || e is BadMessage))
                &&& ((r matches Err(e) && e is MessageNotPartOfConversation) <==> !has_id(
                    s0,
                    message_id,
                ))
                &&& ((r matches Err(e) && e is InvalidMessageRole) <==> (has_id(s0, message_id)
                    && !is_user))
                &&& ((r matches Err(e) && e is CompletionFailed) <==> (has_id(s0, message_id)
                    && is_user && cs.len() == 0))
                &&& ((r matches Err(e) && e is BadMessage) <==> (has_id(s0, message_id) && is_user
                    && cs.len() > 0 && ((exists|k: int|
                    0 <= k < cs.len() && (#[trigger] cs[k]).len() == 0) || n0 + cs.len()
                    > u64::MAX)))
                &&& (r matches Ok(msgs) ==> completion_applied(
                    s0,
                    n0,
                    message_id,
                    cs,
                    seq_views(msgs@),
                    final(self)@.msgs,
                    final(self).spec_next_id(),
                ) && final(self)@.params == old(self)@.params && final(self)@.name == old(
                    self,
                )@.name && final(self)@.path == old(self)@.path)
            }),
    {
        let msg = match self.tree.get(message_id) {
            None => {
                return Err(RustGPTError::MessageNotPartOfConversation);
            },
            Some(m) => m,
        };
        if !matches!(*msg.role(), Role::User) {
            return Err(RustGPTError::InvalidMessageRole);
        }
        if responses.is_empty() {
            return Err(RustGPTError::CompletionFailed(String::from_str("no choices returned")));
        }
        self.insert_and_collect(message_id, responses, Role::Assistant)
    }

    /// The core state transition: resolve the root-to-query chain of the
    /// user message carrying `message_id`, hand it to the provider with the
    /// effective parameters, and append every returned response as an
    /// assistant child of that message. Either the provider answers and all
    /// its responses are inserted together, or the call fails and the
    /// conversation is left exactly as it was.
    pub fn do_completion<P: CompletionProvider>(
        &mut self,
        message_id: u64,
        client: &P,
        n_completions: Option<u8>,
    ) -> (r: Result<Vec<Message>, RustGPTError>)
        ensures
            ({
                let s0 = old(self)@.msgs;
                let n0 = old(self).spec_next_id();
                let is_user = msg_with_id(s0, message_id).role == Role::User;
                &&& (r is Err ==> final(self)@ == old(self)@ && final(self).spec_next_id() == n0)
                &&& ((r matches Err(e) && e is MessageNotPartOfConversation) <==> !has_id(
                    s0,
                    message_id,
                ))
                &&& ((r matches Err(e) && e is InvalidMessageRole) <==> (has_id(s0, message_id)
                    && !is_user))
                &&& (r matches Err(e) ==> (e is MessageNotPartOfConversation
                    || e is InvalidMessageRole || e is CompletionFailed || e is BadMessage))
                &&& (r matches Ok(msgs) ==> has_id(s0, message_id) && is_user && (exists|
                    rs: Seq<Seq<char>>,
                |
                    #[trigger] completion_applied(
                        s0,
                        n0,
                        message_id,
                        rs,
                        seq_views(msgs@),
                        final(self)@.msgs,
                        final(self).spec_next_id(),
                    )) && final(self)@.params == old(self)@.params && final(self)@.name == old(
                    self,
                )@.name && final(self)@.path == old(self)@.path)
            }),
    {
        let msg = match self.tree.get(message_id) {
            None => {
                return Err(RustGPTError::MessageNotPartOfConversation);
            },
            Some(m) => m,
        };
        if !matches!(*msg.role(), Role::User) {
            return Err(RustGPTError::InvalidMessageRole);
        }
        let chain = match self.tree.chain_to(message_id) {
            Err(_) => {
                proof {
                    assert(false);
                }
                return Err(RustGPTError::MessageNotPartOfConversation);
            },
            Ok(c) => c,
        };
        let parameters = self.completion_parameters(n_completions);
        match client.complete(chain, parameters) {
            Err(reason) => Err(RustGPTError::CompletionFailed(reason)),
            Ok(responses) => {
                let ghost rs = content_views(responses@);
                let out = self.apply_completion(message_id, responses);
                proof {
                    if out is Ok {
                        assert(completion_applied(
                            old(self)@.msgs,
                            old(self).spec_next_id(),
                            message_id,
                            rs,
                            seq_views(out->Ok_0@),
                            self@.msgs,
                            self.spec_next_id(),
                        ));
                    }
                }
                out
            },
        }
    }

    /// The conversation's display name; empty until `set_name` is called.
    pub fn name(&self) -> (r: &str)
        ensures
            r@ == self@.name,
    {
        self.name.as_str()
    }

    /// Replaces the display name and hands the previous one back.
    pub fn set_name(&mut self, name: String) -> (r: String)
        ensures
            final(self)@.name == name@,
            r@ == old(self)@.name,
            final(self)@.msgs == old(self)@.msgs,
            final(self)@.params == old(self)@.params,
            final(self)@.path == old(self)@.path,
            final(self).spec_next_id() == old(self).spec_next_id(),
    {
        let previous = self.name.clone();
        self.name = name;
        previous
    }

    /// The storage location the conversation is bound to.
    pub fn path(&self) -> (r: &str)
        ensures
            r@ == self@.path,
    {
        self.path.as_str()
    }

    /// The persisted form of the conversation: parameters, messages in
    /// creation order, and name — everything but the storage location. What
    /// it yields always satisfies `loadable`.
    pub fn to_data(&self) -> (d: ConversationData)
        ensures
            d.default_parameters == self@.params,
            seq_views(d.interactions@) =~= self@.msgs,
            d.name@ == self@.name,
            loadable(self@.msgs),
    {
        ConversationData {
            default_parameters: self.default_parameters,
            interactions: self.tree.to_messages(),
            name: self.name.clone(),
        }
    }

    /// Restores a conversation from persisted data, validating the tree
    /// shape and rebinding the storage location to the path the data was
    /// actually read from — the stored location is never trusted. Fails,
    /// with nothing repaired, exactly when the data is not `loadable`.
    pub fn from_data(data: ConversationData, path: String) -> (r: Result<
        Conversation,
        RustGPTError,
    >)
        ensures
            r is Ok <==> loadable(seq_views(data.interactions@)),
            r matches Ok(c) ==> ({
                &&& c@.params == data.default_parameters
                &&& c@.msgs =~= seq_views(data.interactions@)
                &&& c@.name == data.name@
                &&& c@.path == path@
            }),
            r matches Err(e) ==> e is CorruptAggregate,
    {
        let tree = match MessageTree::from_messages(data.interactions) {
            Err(e) => {
                return Err(e);
            },
            Ok(t) => t,
        };
        Ok(Conversation { default_parameters: data.default_parameters, tree, name: data.name, path })
    }

    /// A fresh, independent depth-first iterator over the conversation,
    /// starting at the root. Iterating never mutates the tree.
    pub fn iter(&self) -> (it: ConversationIter)
        ensures
            it@ =~= seq![self@.msgs[0].id],
            iter_valid(it@, self@.msgs),
    {
        proof {
            use_type_invariant(&self.tree);
            lemma_idx_of_id(self@.msgs, 0);
        }
        let root = self.tree.root();
        let mut stack: Vec<u64> = Vec::new();
        stack.push(root.id());
        ConversationIter { stack }
    }
}

/// Whether every id scheduled for visitation belongs to the tree.
pub open spec fn iter_valid(it: Seq<u64>, msgs: Seq<MessageView>) -> bool {
    forall|t: int| 0 <= t < it.len() ==> has_id(msgs, #[trigger] it[t])
}

/// A depth-first, restartable, lazy walk over a conversation: messages come
/// in pre-order, children in ascending sibling order. The iterator holds
/// only scheduled ids; the conversation it walks is passed to `next`.
pub struct ConversationIter {
    stack: Vec<u64>,
}

impl View for ConversationIter {
    type V = Seq<u64>;

    closed spec fn view(&self) -> Seq<u64> {
        self.stack@
    }
}

impl ConversationIter {
    /// Yields the next message of the walk: the scheduled id nearest the
    /// top of the stack is popped, and its children are scheduled so that
    /// the lowest sibling index is visited first. `None` exactly when the
    /// walk is over.
    pub fn next(&mut self, conversation: &Conversation) -> (r: Option<Message>)
        requires
            iter_valid(old(self)@, conversation@.msgs),
        ensures
            iter_valid(final(self)@, conversation@.msgs),
            old(self)@.len() == 0 ==> r is None && final(self)@ == old(self)@,
            old(self)@.len() > 0 ==> ({
                let msgs = conversation@.msgs;
                let top = old(self)@[old(self)@.len() - 1];
                &&& r matches Some(m) && m@ == msg_with_id(msgs, top)
                &&& final(self)@.len() == old(self)@.len() - 1 + children_in(msgs, top).len()
                &&& (forall|t: int|
                    0 <= t < old(self)@.len() - 1 ==> final(self)@[t] == old(self)@[t])
                &&& (forall|k: int|
                    0 <= k < children_in(msgs, top).len() ==> final(self)@[final(self)@.len() - 1
                        - k] == (#[trigger] children_in(msgs, top)[k]).id)
            }),
    {
        let top = match self.stack.pop() {
            None => {
                return None;
            },
            Some(t) => t,
        };
        let msg = conversation.get_message(top).unwrap();
        let children = conversation.get_children(top);
        let ghost msgs = conversation@.msgs;
        let ghost base = old(self)@.len() - 1;
        let n = children.len();
        let mut k = n;
        while k > 0
            invariant
                n == children@.len(),
                k <= n,
                seq_views(children@) =~= children_in(msgs, top),
                base == old(self)@.len() - 1,
                0 <= base,
                self@.len() == base + (n - k),
                forall|t: int| 0 <= t < base ==> self@[t] == old(self)@[t],
                forall|j: int|
                    k <= j < n ==> self@[base + (n - 1 - j)] == (#[trigger] children@[j])@.id,
            decreases k,
        {
            k = k - 1;
            let c = children[k].id();
            self.stack.push(c);
            proof {
                assert(self@[base + (n - 1 - k)] == children@[k as int]@.id);
            }
        }
        proof {
            lemma_children_structure(msgs, top);
            assert forall|t: int| 0 <= t < self@.len() implies has_id(msgs, #[trigger] self@[t]) by {
                if t < base {
                    assert(self@[t] == old(self)@[t]);
                } else {
                    let j = n - 1 - (t - base);
                    assert(self@[base + (n - 1 - j)] == children@[j]@.id);
                    assert(seq_views(children@)[j] == children@[j]@);
                    let i = choose|i: int|
                        0 <= i < msgs.len() && msgs[i] == children_in(msgs, top)[j];
                    assert(msgs[i].id == children@[j]@.id);
                }
            }
            assert forall|k2: int| 0 <= k2 < children_in(msgs, top).len() implies self@[self@.len()
                - 1 - k2] == (#[trigger] children_in(msgs, top)[k2]).id by {
                assert(self@[base + (n - 1 - k2)] == children@[k2]@.id);
                assert(seq_views(children@)[k2] == children@[k2]@);
            }
        }
        Some(msg)
    }
}

/// Law: saving, loading and saving again yields the same data. `to_data`
/// only ever writes `loadable` data — this lemma — and, by their
/// contracts, `from_data` accepts exactly `loadable` data, returns it
/// unchanged, and `to_data` then writes that same data again.
pub proof fn lemma_save_load_round_trip(msgs: Seq<MessageView>, next_id: u64)
    requires
        tree_wf(msgs),
        forall|i: int| 0 <= i < msgs.len() ==> (#[trigger] msgs[i].id) < next_id,
    ensures
        loadable(msgs),
{
}

} // verus!
