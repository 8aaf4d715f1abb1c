use rust_gpt::conversations::{Conversation, ConversationData};
use rust_gpt::params::CompletionParametersBuilder;
use rust_gpt::tree::{Message, MessageTree, Role};
use rust_gpt::RustGPTError;

fn build_conversation(system_content: &str) -> Conversation {
    let parameters = CompletionParametersBuilder::default()
        .build()
        .expect("default parameters");
    Conversation::build(parameters, String::new(), system_content).expect("build conversation")
}

#[test]
fn fresh_conversation_frontier_is_exactly_the_root() {
    let conversation = build_conversation("You are a helpful assistant");
    let root = conversation.get_root_message();

    let frontier = conversation.get_latest_messages();
    assert_eq!(frontier.len(), 1);
    assert_eq!(frontier[0].id(), root.id());
    assert_eq!(frontier[0].content(), "You are a helpful assistant");
}

#[test]
fn query_sibling_indexes_continue_across_batches() {
    let mut conversation = build_conversation("You are a helpful assistant");
    let root_id = conversation.get_root_message().id();

    let added = conversation
        .add_queries(
            root_id,
            vec![String::from("Q1"), String::from("Q2"), String::from("Q3")],
        )
        .expect("add queries");
    let indexes: Vec<u64> = added.iter().map(|m| m.index()).collect();
    assert_eq!(indexes, vec![1, 2, 3]);

    let added = conversation
        .add_queries(root_id, vec![String::from("Q4")])
        .expect("add one more");
    assert_eq!(added.len(), 1);
    assert_eq!(added[0].index(), 4);
}

#[test]
fn queries_under_a_user_message_are_rejected() {
    let mut conversation = build_conversation("You are a helpful assistant");
    let root_id = conversation.get_root_message().id();
    let query_id = conversation
        .add_queries(root_id, vec![String::from("Q1")])
        .expect("add query")[0]
        .id();

    let result = conversation.add_queries(query_id, vec![String::from("Q2")]);
    assert!(matches!(result, Err(RustGPTError::InvalidMessageRole)));
}

#[test]
fn frontier_never_contains_a_parent() {
    let mut conversation = build_conversation("root");
    let root_id = conversation.get_root_message().id();
    let q = conversation
        .add_queries(root_id, vec![String::from("Q1"), String::from("Q2")])
        .expect("queries");
    conversation
        .add_children_to_message(q[0].id(), vec![String::from("A1")], Role::Assistant)
        .expect("answer");

    let parents: Vec<Option<u64>> = conversation
        .to_data()
        .interactions
        .iter()
        .map(|m| m.parent_id())
        .collect();
    for leaf in conversation.get_latest_messages() {
        assert!(!parents.contains(&Some(leaf.id())));
    }
    // Exactly the leaves remain, in ascending id order: Q2, then A1.
    let contents: Vec<String> = conversation
        .get_latest_messages()
        .iter()
        .map(|m| m.content().clone())
        .collect();
    assert_eq!(contents, vec![String::from("Q2"), String::from("A1")]);
}

#[test]
fn siblings_always_include_the_message_itself() {
    let mut conversation = build_conversation("root");
    let root_id = conversation.get_root_message().id();

    // The root has no parent: it is its own single sibling.
    let root_siblings = conversation
        .get_message_siblings(root_id)
        .expect("root siblings");
    assert_eq!(root_siblings.len(), 1);
    assert_eq!(root_siblings[0].id(), root_id);

    let q = conversation
        .add_queries(root_id, vec![String::from("Q1"), String::from("Q2")])
        .expect("queries");
    for queried in &q {
        let siblings = conversation
            .get_message_siblings(queried.id())
            .expect("siblings");
        assert!(siblings.len() >= 1);
        assert!(siblings.iter().any(|s| s.id() == queried.id()));
    }
}

#[test]
fn message_list_is_a_parent_child_path_through_the_anchor() {
    // root -> Q1 -> {A1, A2} and root -> Q2 -> A3 -> {Q3, Q4}
    let mut conversation = build_conversation("root");
    let root_id = conversation.get_root_message().id();
    let q = conversation
        .add_queries(root_id, vec![String::from("Q1"), String::from("Q2")])
        .expect("queries");
    let a12 = conversation
        .add_children_to_message(
            q[0].id(),
            vec![String::from("A1"), String::from("A2")],
            Role::Assistant,
        )
        .expect("answers");
    let a3 = conversation
        .add_children_to_message(q[1].id(), vec![String::from("A3")], Role::Assistant)
        .expect("answer")[0];
    conversation
        .add_children_to_message(a3, vec![String::from("Q3"), String::from("Q4")], Role::User)
        .expect("follow-ups");

    // Anchored at A2 (a leaf on a side branch): root -> Q1 -> A2.
    let path = conversation
        .get_message_list(Some(a12[1]))
        .expect("anchored path");
    let contents: Vec<String> = path.iter().map(|m| m.content().clone()).collect();
    assert_eq!(
        contents,
        vec![String::from("root"), String::from("Q1"), String::from("A2")]
    );
    for pair in path.windows(2) {
        assert_eq!(pair[1].parent_id(), Some(pair[0].id()));
    }

    // Anchored at Q2: continues by the lowest-index child down to Q3.
    let path = conversation
        .get_message_list(Some(q[1].id()))
        .expect("anchored path");
    let contents: Vec<String> = path.iter().map(|m| m.content().clone()).collect();
    assert_eq!(
        contents,
        vec![
            String::from("root"),
            String::from("Q2"),
            String::from("A3"),
            String::from("Q3"),
        ]
    );
    for pair in path.windows(2) {
        assert_eq!(pair[1].parent_id(), Some(pair[0].id()));
    }

    // An unknown anchor is reported as such.
    let missing = conversation.get_message_list(Some(9999));
    assert!(matches!(
        missing,
        Err(RustGPTError::MessageNotPartOfConversation)
    ));
}

#[test]
fn depth_first_iteration_visits_branches_in_sibling_order() {
    // root -> Q1 -> {A1, A2} and root -> Q2 -> A3 -> {Q3, Q4}
    let mut conversation = build_conversation("root");
    let root_id = conversation.get_root_message().id();
    let q = conversation
        .add_queries(root_id, vec![String::from("Q1"), String::from("Q2")])
        .expect("queries");
    conversation
        .add_children_to_message(
            q[0].id(),
            vec![String::from("A1"), String::from("A2")],
            Role::Assistant,
        )
        .expect("answers");
    let a3 = conversation
        .add_children_to_message(q[1].id(), vec![String::from("A3")], Role::Assistant)
        .expect("answer")[0];
    conversation
        .add_children_to_message(a3, vec![String::from("Q3"), String::from("Q4")], Role::User)
        .expect("follow-ups");

    let mut it = conversation.iter();
    let mut visited: Vec<String> = Vec::new();
    while let Some(m) = it.next(&conversation) {
        visited.push(m.content().clone());
    }
    assert_eq!(
        visited,
        vec![
            String::from("root"),
            String::from("Q1"),
            String::from("A1"),
            String::from("A2"),
            String::from("Q2"),
            String::from("A3"),
            String::from("Q3"),
            String::from("Q4"),
        ]
    );

    // A fresh iterator replays the same walk: iterating mutates nothing.
    let mut it = conversation.iter();
    let mut replay: Vec<String> = Vec::new();
    while let Some(m) = it.next(&conversation) {
        replay.push(m.content().clone());
    }
    assert_eq!(visited, replay);
}

#[test]
fn save_load_save_yields_identical_data() {
    let mut conversation = build_conversation("You are a helpful assistant");
    conversation.set_name(String::from("round trip"));
    let root_id = conversation.get_root_message().id();
    let q = conversation
        .add_queries(root_id, vec![String::from("Q1"), String::from("Q2")])
        .expect("queries");
    conversation
        .add_children_to_message(q[0].id(), vec![String::from("A1")], Role::Assistant)
        .expect("answer");

    let first = conversation.to_data();
    let restored =
        Conversation::from_data(conversation.to_data(), String::from("moved.yaml"))
            .expect("restore");
    // The storage location is rebound to the path the data was read from.
    assert_eq!(restored.path(), "moved.yaml");

    let second = restored.to_data();
    assert_eq!(first.default_parameters, second.default_parameters);
    assert_eq!(first.name, second.name);
    assert_eq!(first.interactions.len(), second.interactions.len());
    for (a, b) in first.interactions.iter().zip(second.interactions.iter()) {
        assert_eq!(a.id(), b.id());
        assert_eq!(a.parent_id(), b.parent_id());
        assert_eq!(a.index(), b.index());
        assert_eq!(*a.role(), *b.role());
        assert_eq!(a.content(), b.content());
    }
}

#[test]
fn message_chain_stops_at_the_queried_message() {
    // root -> Q1 -> A1 -> Q2, with a sibling branch root -> Q3.
    let mut conversation = build_conversation("root");
    let root_id = conversation.get_root_message().id();
    let q1 = conversation
        .add_queries(root_id, vec![String::from("Q1")])
        .expect("query")[0]
        .id();
    let a1 = conversation
        .add_children_to_message(q1, vec![String::from("A1")], Role::Assistant)
        .expect("answer")[0];
    let q2 = conversation
        .add_queries(a1, vec![String::from("Q2")])
        .expect("follow-up")[0]
        .id();
    conversation
        .add_queries(root_id, vec![String::from("Q3")])
        .expect("side branch");

    // The chain is the request payload: root to the queried message, no
    // sibling branches, no descent past the anchor.
    let chain = conversation.get_message_chain(q2).expect("chain");
    let contents: Vec<String> = chain.iter().map(|m| m.content().clone()).collect();
    assert_eq!(
        contents,
        vec![
            String::from("root"),
            String::from("Q1"),
            String::from("A1"),
            String::from("Q2"),
        ]
    );

    let missing = conversation.get_message_chain(12345);
    assert!(matches!(
        missing,
        Err(RustGPTError::MessageNotPartOfConversation)
    ));

    // Direct lookup finds exactly the stored message.
    let found = conversation.get_message(q1).expect("lookup");
    assert_eq!(found.id(), q1);
    assert_eq!(found.content(), "Q1");
    assert!(conversation.get_message(12345).is_none());
}

fn message(id: u64, parent_id: Option<u64>, index: u64, role: Role, content: &str) -> Message {
    Message::new(id, parent_id, index, role, String::from(content)).expect("message")
}

fn data_with(interactions: Vec<Message>) -> ConversationData {
    ConversationData {
        default_parameters: CompletionParametersBuilder::default()
            .build()
            .expect("parameters"),
        interactions,
        name: String::new(),
    }
}

#[test]
fn corrupt_aggregates_are_rejected_on_load() {
    // No messages at all.
    let empty = Conversation::from_data(data_with(vec![]), String::new());
    assert!(matches!(empty, Err(RustGPTError::CorruptAggregate(_))));

    // A dangling parent reference.
    let dangling = Conversation::from_data(
        data_with(vec![
            message(0, None, 1, Role::System, "root"),
            message(1, Some(7), 1, Role::User, "orphan"),
        ]),
        String::new(),
    );
    assert!(matches!(dangling, Err(RustGPTError::CorruptAggregate(_))));

    // Two messages without a parent: the root would not be unique.
    let two_roots = Conversation::from_data(
        data_with(vec![
            message(0, None, 1, Role::System, "root"),
            message(1, None, 1, Role::System, "impostor"),
        ]),
        String::new(),
    );
    assert!(matches!(two_roots, Err(RustGPTError::CorruptAggregate(_))));

    // Ids out of order.
    let unsorted = Conversation::from_data(
        data_with(vec![
            message(5, None, 1, Role::System, "root"),
            message(2, Some(5), 1, Role::User, "early id"),
        ]),
        String::new(),
    );
    assert!(matches!(unsorted, Err(RustGPTError::CorruptAggregate(_))));

    // Sibling numbering with a gap.
    let misnumbered = Conversation::from_data(
        data_with(vec![
            message(0, None, 1, Role::System, "root"),
            message(1, Some(0), 2, Role::User, "should be first"),
        ]),
        String::new(),
    );
    assert!(matches!(
        misnumbered,
        Err(RustGPTError::CorruptAggregate(_))
    ));

    // The same data with correct numbering is accepted.
    let sound = Conversation::from_data(
        data_with(vec![
            message(0, None, 1, Role::System, "root"),
            message(1, Some(0), 1, Role::User, "first"),
        ]),
        String::new(),
    );
    assert!(sound.is_ok());
}

#[test]
fn stored_trees_keep_their_ids_on_load() {
    // Ids need not be dense: any strictly growing assignment loads.
    let sparse = Conversation::from_data(
        data_with(vec![
            message(10, None, 1, Role::System, "root"),
            message(20, Some(10), 1, Role::User, "Q1"),
            message(35, Some(10), 2, Role::User, "Q2"),
        ]),
        String::new(),
    )
    .expect("sparse ids load");
    let ids: Vec<u64> = sparse
        .to_data()
        .interactions
        .iter()
        .map(|m| m.id())
        .collect();
    assert_eq!(ids, vec![10, 20, 35]);

    // New messages continue past the largest stored id.
    let mut sparse = sparse;
    let added = sparse
        .add_queries(10, vec![String::from("Q3")])
        .expect("add under root");
    assert_eq!(added[0].index(), 3);
    assert!(added[0].id() > 35);
}

#[test]
fn direct_message_construction_is_validated() {
    let empty = Message::new(0, None, 1, Role::System, String::new());
    assert!(matches!(empty, Err(RustGPTError::BadMessage(_))));

    let zero_index = Message::new(0, None, 0, Role::System, String::from("root"));
    assert!(matches!(zero_index, Err(RustGPTError::BadMessage(_))));

    let parentless_user = Message::new(0, None, 1, Role::User, String::from("who asked"));
    assert!(matches!(parentless_user, Err(RustGPTError::BadMessage(_))));

    let sound = Message::new(3, Some(1), 2, Role::User, String::from("hello")).expect("message");
    assert_eq!(sound.id(), 3);
    assert_eq!(sound.parent_id(), Some(1));
    assert_eq!(sound.index(), 2);
    assert_eq!(*sound.role(), Role::User);
    assert_eq!(sound.content(), "hello");
}

#[test]
fn tree_create_and_children_are_ordered_by_sibling_index() {
    let mut tree = MessageTree::create(String::from("root")).expect("create tree");
    let root_id = tree.root().id();
    tree.insert_children(
        root_id,
        vec![String::from("a"), String::from("b"), String::from("c")],
        Role::User,
    )
    .expect("insert");

    assert_eq!(tree.len(), 4);
    let children = tree.children_of(root_id);
    assert_eq!(children.len(), 3);
    for (k, c) in children.iter().enumerate() {
        assert_eq!(c.index(), k as u64 + 1);
        assert_eq!(c.parent_id(), Some(root_id));
    }

    let unknown = tree.insert_children(9999, vec![String::from("x")], Role::User);
    assert!(matches!(
        unknown,
        Err(RustGPTError::MessageNotPartOfConversation)
    ));
}
