use rust_gpt::conversations::{CompletionProvider, Conversation};
use rust_gpt::params::{CompletionModel, CompletionParameters, CompletionParametersBuilder};
use rust_gpt::tree::{Message, Role};
use rust_gpt::RustGPTError;

/// A provider that answers every request with the same canned texts.
struct CannedProvider {
    responses: Vec<String>,
}

impl CompletionProvider for CannedProvider {
    fn complete(
        &self,
        _messages: Vec<Message>,
        _parameters: CompletionParameters,
    ) -> Result<Vec<String>, String> {
        Ok(self.responses.clone())
    }
}

/// A provider whose transport always fails.
struct FailingProvider;

impl CompletionProvider for FailingProvider {
    fn complete(
        &self,
        _messages: Vec<Message>,
        _parameters: CompletionParameters,
    ) -> Result<Vec<String>, String> {
        Err(String::from("connection refused"))
    }
}

fn default_parameters() -> CompletionParameters {
    CompletionParametersBuilder::default()
        .build()
        .expect("default parameters")
}

#[test]
fn conversation_operations() {
    let parameters = default_parameters();
    let system_message = "You are a helpful assistant";
    let mut conversation =
        Conversation::build(parameters, String::from("test.yaml"), system_message)
            .expect("basic conversation");

    // .. check name
    let conversation_name = "Test conversation";
    conversation.set_name(conversation_name.to_string());
    assert_eq!(conversation.name(), conversation_name);

    // .. root message
    let root_message = conversation.get_root_message();
    assert_eq!(*root_message.role(), Role::System);
    assert_eq!(root_message.content(), system_message);

    let root_message_id = root_message.id();

    // Add messages
    let queries = vec![
        String::from("Query1"),
        String::from("Query2"),
        String::from("Query3"),
    ];
    let added_messages = conversation
        .add_queries(root_message_id, queries.clone())
        .expect("add messages");
    for (idx, (q, m)) in queries.iter().zip(added_messages.iter()).enumerate() {
        let idx = idx as u64 + 1;
        assert_eq!(m.content(), q, "Content should match");
        assert_eq!(m.index(), idx, "Sibling index should match");
    }

    // Add completions
    let completions = vec![String::from("Completion1"), String::from("Completion2")];
    let first_message_id = added_messages.first().unwrap().id();
    conversation
        .add_children_to_message(first_message_id, completions, Role::Assistant)
        .expect("Add completion messages");

    // Add more messages under same parent
    let added_messages = conversation
        .add_queries(root_message_id, queries.clone())
        .expect("add siblings");
    for (idx, (q, m)) in queries.iter().zip(added_messages).enumerate() {
        let idx = (idx + 1 + queries.len()) as u64;
        assert_eq!(m.content(), q, "Content should match");
        assert_eq!(m.index(), idx, "Following sibling index should match");
    }

    // Get list of messages
    let message_list = conversation
        .get_message_list(None)
        .expect("message list");

    assert_eq!(message_list.len(), 3);
    let expected_content = vec![system_message, "Query1", "Completion1"];
    for (msg, expected) in message_list.iter().zip(expected_content) {
        assert_eq!(msg.content().as_str(), expected);
    }

    // Get all the siblings of a message
    let siblings = conversation
        .get_message_siblings(first_message_id)
        .expect("get siblings");

    assert_eq!(siblings.len(), queries.len() * 2);
    for (id, s) in siblings.into_iter().enumerate() {
        let n = (id % 3) + 1;
        assert_eq!(s.content().as_str(), format!("Query{}", n));
    }

    // Persist the conversation and restore it from the written data
    let data = conversation.to_data();
    let loaded_conversation =
        Conversation::from_data(data, String::from("test.yaml")).expect("load conversation");
    assert_conversations_equal(&conversation, &loaded_conversation);
}

/// Conversations are compared by what they expose: parameters, name and
/// every message field, in order.
fn assert_conversations_equal(a: &Conversation, b: &Conversation) {
    assert_eq!(a.name(), b.name());
    let da = a.to_data();
    let db = b.to_data();
    assert_eq!(da.default_parameters, db.default_parameters);
    assert_eq!(da.interactions.len(), db.interactions.len());
    for (ma, mb) in da.interactions.iter().zip(db.interactions.iter()) {
        assert_eq!(ma.id(), mb.id());
        assert_eq!(ma.parent_id(), mb.parent_id());
        assert_eq!(ma.index(), mb.index());
        assert_eq!(*ma.role(), *mb.role());
        assert_eq!(ma.content(), mb.content());
    }
}

#[test]
fn conversation_completion() {
    // Create a new conversation
    let parameters = CompletionParametersBuilder::default()
        .n(2)
        .model(CompletionModel::GPT35)
        .max_tokens(128)
        .temperature(100)
        .build()
        .expect("parameters");

    let mut conversation = Conversation::build(
        parameters,
        String::from("conversation.yml"),
        "You are a helpful assistant that must provide answers in Spanish.",
    )
    .expect("build conversation");

    // Add query
    let root_conversation_id = conversation.get_root_message().id();

    let queries = vec![String::from(
        "What is the greatest thing that has come out of ChatGPT",
    )];
    let message_id = conversation
        .add_queries(root_conversation_id, queries)
        .expect("add queries")
        .first()
        .expect("Single query")
        .id();

    // Complete against a canned provider standing in for the remote service
    let client = CannedProvider {
        responses: vec![String::from("Respuesta1"), String::from("Respuesta2")],
    };
    let completions = conversation
        .do_completion(message_id, &client, None)
        .expect("perform completions");

    assert_eq!(completions.len(), 2);
    for (k, c) in completions.iter().enumerate() {
        assert_eq!(*c.role(), Role::Assistant);
        assert_eq!(c.parent_id(), Some(message_id));
        assert_eq!(c.index(), k as u64 + 1);
    }
    assert_eq!(completions[0].content(), "Respuesta1");
    assert_eq!(completions[1].content(), "Respuesta2");
}

#[test]
fn conversation_iter() {
    // Create the conversation
    let params = default_parameters();
    let mut conversation =
        Conversation::build(params, String::new(), "System").expect("build conversation");

    // Add queries
    let root_id = conversation.get_root_message().id();
    let children = conversation
        .add_children_to_message(
            root_id,
            vec![String::from("Q1"), String::from("Q2")],
            Role::User,
        )
        .expect("Add messages");

    let c1 = children[0];
    let c2 = children[1];

    let _ = conversation
        .add_children_to_message(
            c1,
            vec![String::from("A1"), String::from("A2")],
            Role::Assistant,
        )
        .expect("add children");

    let children = conversation
        .add_children_to_message(
            c2,
            vec![String::from("A3"), String::from("A4")],
            Role::Assistant,
        )
        .expect("add children");
    let a3 = children[0];

    let _ = conversation
        .add_children_to_message(a3, vec![String::from("Q3"), String::from("Q4")], Role::User)
        .expect("add children");

    // Expected run
    let expected_content = vec![
        String::from("System"),
        String::from("Q1"),
        String::from("A1"),
        String::from("A2"),
        String::from("Q2"),
        String::from("A3"),
        String::from("Q3"),
        String::from("Q4"),
        String::from("A4"),
    ];

    let mut it = conversation.iter();
    let mut visited: Vec<String> = Vec::new();
    while let Some(message) = it.next(&conversation) {
        visited.push(message.content().clone());
    }
    assert_eq!(visited, expected_content);
}

#[test]
fn completion_transport_failure_leaves_conversation_unchanged() {
    let mut conversation = Conversation::build(
        default_parameters(),
        String::new(),
        "You are a helpful assistant",
    )
    .expect("build conversation");
    let root_id = conversation.get_root_message().id();
    let query_id = conversation
        .add_queries(root_id, vec![String::from("Q1")])
        .expect("add query")[0]
        .id();

    let frontier_before: Vec<u64> = conversation
        .get_latest_messages()
        .iter()
        .map(|m| m.id())
        .collect();

    let result = conversation.do_completion(query_id, &FailingProvider, None);
    assert!(matches!(result, Err(RustGPTError::CompletionFailed(_))));

    let frontier_after: Vec<u64> = conversation
        .get_latest_messages()
        .iter()
        .map(|m| m.id())
        .collect();
    assert_eq!(frontier_before, frontier_after);
}

#[test]
fn completion_sample_count_override() {
    let conversation = Conversation::build(
        default_parameters(),
        String::new(),
        "You are a helpful assistant",
    )
    .expect("build conversation");

    let effective = conversation.completion_parameters(Some(3));
    assert_eq!(effective.n(), 3);
    assert_eq!(effective.temperature(), 100);
    assert_eq!(effective.model(), CompletionModel::GPT35);
    assert_eq!(effective.max_tokens(), 512);

    let unchanged = conversation.completion_parameters(None);
    assert_eq!(unchanged.n(), 1);
}

#[test]
fn completion_on_unknown_or_non_user_message_fails() {
    let mut conversation = Conversation::build(
        default_parameters(),
        String::new(),
        "You are a helpful assistant",
    )
    .expect("build conversation");
    let root_id = conversation.get_root_message().id();

    let provider = CannedProvider {
        responses: vec![String::from("answer")],
    };
    let unknown = conversation.do_completion(root_id + 100, &provider, None);
    assert!(matches!(
        unknown,
        Err(RustGPTError::MessageNotPartOfConversation)
    ));

    // The root is a system message: a completion can only answer a user turn.
    let wrong_role = conversation.do_completion(root_id, &provider, None);
    assert!(matches!(wrong_role, Err(RustGPTError::InvalidMessageRole)));
}

#[test]
fn set_name_returns_previous_name() {
    let mut conversation = Conversation::build(
        default_parameters(),
        String::new(),
        "You are a helpful assistant",
    )
    .expect("build conversation");
    assert_eq!(conversation.name(), "");

    let previous = conversation.set_name(String::from("first"));
    assert_eq!(previous, "");
    let previous = conversation.set_name(String::from("second"));
    assert_eq!(previous, "first");
    assert_eq!(conversation.name(), "second");
}

#[test]
fn empty_system_message_is_rejected() {
    let result = Conversation::build(default_parameters(), String::new(), "");
    assert!(matches!(result, Err(RustGPTError::BadMessage(_))));
}

#[test]
fn provider_without_choices_fails_the_completion() {
    let mut conversation = Conversation::build(
        default_parameters(),
        String::new(),
        "You are a helpful assistant",
    )
    .expect("build conversation");
    let root_id = conversation.get_root_message().id();
    let query_id = conversation
        .add_queries(root_id, vec![String::from("Q1")])
        .expect("add query")[0]
        .id();

    let frontier_before: Vec<u64> = conversation
        .get_latest_messages()
        .iter()
        .map(|m| m.id())
        .collect();

    let no_choices = CannedProvider { responses: vec![] };
    let result = conversation.do_completion(query_id, &no_choices, None);
    assert!(matches!(result, Err(RustGPTError::CompletionFailed(_))));

    // The tree is unchanged: same frontier before and after.
    let frontier_after: Vec<u64> = conversation
        .get_latest_messages()
        .iter()
        .map(|m| m.id())
        .collect();
    assert_eq!(frontier_before, frontier_after);
}

#[test]
fn empty_response_text_is_rejected_without_insertion() {
    let mut conversation = Conversation::build(
        default_parameters(),
        String::new(),
        "You are a helpful assistant",
    )
    .expect("build conversation");
    let root_id = conversation.get_root_message().id();
    let query_id = conversation
        .add_queries(root_id, vec![String::from("Q1")])
        .expect("add query")[0]
        .id();

    let result =
        conversation.apply_completion(query_id, vec![String::from("fine"), String::new()]);
    assert!(matches!(result, Err(RustGPTError::BadMessage(_))));

    let frontier = conversation.get_latest_messages();
    assert_eq!(frontier.len(), 1);
    assert_eq!(frontier[0].id(), query_id);
}

#[test]
fn empty_query_content_is_rejected_atomically() {
    let mut conversation = Conversation::build(
        default_parameters(),
        String::new(),
        "You are a helpful assistant",
    )
    .expect("build conversation");
    let root_id = conversation.get_root_message().id();

    let result = conversation.add_queries(
        root_id,
        vec![String::from("fine"), String::new(), String::from("also fine")],
    );
    assert!(matches!(result, Err(RustGPTError::BadMessage(_))));

    // Nothing was inserted: the root is still the only message.
    let frontier = conversation.get_latest_messages();
    assert_eq!(frontier.len(), 1);
    assert_eq!(frontier[0].id(), root_id);
}
