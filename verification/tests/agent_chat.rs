use wasm_canvas::agent::{
    agent_step, assistant_turn, from_chat_reply, to_chat_messages, tool_results_message, AgentStep, Block,
    ChatMessage, ChatReply, Content, Message, StopReason, ToolCall,
};

fn s(t: &str) -> String {
    t.to_string()
}

fn call(id: &str, name: &str, args: &str) -> ToolCall {
    ToolCall { id: s(id), name: s(name), arguments: s(args) }
}

fn describe(m: &ChatMessage) -> String {
    match m {
        ChatMessage::System { content } => format!("system:{}", content),
        ChatMessage::User { content } => format!("user:{}", content),
        ChatMessage::Tool { tool_call_id, content } => format!("tool:{}:{}", tool_call_id, content),
        ChatMessage::Assistant { content, tool_calls } => format!(
            "assistant:{:?}:{:?}",
            content,
            tool_calls.as_ref().map(|v| v.iter().map(|c| format!("{}/{}/{}", c.id, c.name, c.arguments)).collect::<Vec<_>>())
        ),
    }
}

#[test]
fn conversation_in_chat_format() {
    let messages = vec![
        Message { role: Some(s("user")), content: Content::Text(s("make a node")) },
        Message {
            role: Some(s("assistant")),
            content: Content::Blocks(vec![
                Block::Text { text: s("Sure.") },
                Block::ToolUse { id: s("t1"), name: s("list_canvases"), input: s("{}") },
                Block::Text { text: s("Checking.") },
            ]),
        },
        Message {
            role: Some(s("user")),
            content: Content::Blocks(vec![
                Block::ToolResult { tool_use_id: s("t1"), content: s("main") },
                Block::Text { text: s("ignored") },
            ]),
        },
        Message { role: None, content: Content::Text(s("no role means user")) },
        Message { role: Some(s("assistant")), content: Content::Text(s("a plain assistant text is dropped")) },
        Message { role: Some(s("other")), content: Content::Text(s("dropped")) },
        Message { role: Some(s("assistant")), content: Content::Blocks(vec![]) },
    ];
    let chat: Vec<String> = to_chat_messages("SYS", &messages).iter().map(describe).collect();
    assert_eq!(
        chat,
        vec![
            s("system:SYS"),
            s("user:make a node"),
            s("assistant:Some(\"Sure.\\nChecking.\"):Some([\"t1/list_canvases/{}\"])"),
            s("tool:t1:main"),
            s("user:no role means user"),
            s("assistant:None:None"),
        ]
    );
}

#[test]
fn chat_reply_in_agent_format() {
    let reply = ChatReply {
        finish_reason: Some(s("tool_calls")),
        content: Some(s("")),
        tool_calls: vec![call("c1", "eval", "{\"code\": \"(+ 1 2)\"}"), call("c2", "eval", "not json")],
    };
    let r = from_chat_reply(&reply);
    assert_eq!(r.stop_reason, StopReason::ToolUse);
    assert_eq!(r.content.len(), 2);
    match &r.content[1] {
        Block::ToolUse { id, input, .. } => {
            assert_eq!(id, "c2");
            assert_eq!(input, "{}");
        }
        _ => panic!("expected a tool use"),
    }
    match agent_step(&r) {
        AgentStep::RunTools(calls) => {
            assert_eq!(calls.len(), 2);
            assert_eq!(calls[0].arguments, "{\"code\":\"(+ 1 2)\"}");
        }
        AgentStep::Finish(_) => panic!("expected tools"),
    }

    for (finish, want) in [
        (Some("function_call"), StopReason::ToolUse),
        (Some("stop"), StopReason::EndTurn),
        (Some("length"), StopReason::EndTurn),
        (None, StopReason::EndTurn),
    ] {
        let reply = ChatReply { finish_reason: finish.map(s), content: Some(s("done")), tool_calls: vec![] };
        let r = from_chat_reply(&reply);
        assert_eq!(r.stop_reason, want);
    }

    let reply = ChatReply { finish_reason: Some(s("stop")), content: Some(s("All done")), tool_calls: vec![] };
    match agent_step(&from_chat_reply(&reply)) {
        AgentStep::Finish(texts) => assert_eq!(texts, vec![s("All done")]),
        AgentStep::RunTools(_) => panic!("expected the end of the turn"),
    }
}

#[test]
fn reply_round_trips_to_chat_format() {
    let reply = ChatReply {
        finish_reason: Some(s("tool_calls")),
        content: Some(s("Let me look.")),
        tool_calls: vec![call("c1", "list_nodes", "{\"canvas\":\"main\"}")],
    };
    let turn = assistant_turn(&from_chat_reply(&reply));
    let chat = to_chat_messages("SYS", &vec![turn]);
    assert_eq!(chat.len(), 2);
    assert_eq!(
        describe(&chat[1]),
        s("assistant:Some(\"Let me look.\"):Some([\"c1/list_nodes/{\\\"canvas\\\":\\\"main\\\"}\"])")
    );
}

#[test]
fn tool_results_become_the_next_user_message() {
    let m = tool_results_message(&vec![(s("t1"), s("ok")), (s("t2"), s("error"))]);
    assert_eq!(m.role.as_deref(), Some("user"));
    let chat: Vec<String> = to_chat_messages("SYS", &vec![m]).iter().map(describe).collect();
    assert_eq!(chat, vec![s("system:SYS"), s("tool:t1:ok"), s("tool:t2:error")]);
}

#[test]
fn tool_call_arguments_are_kept_in_compact_json() {
    let reply = ChatReply {
        finish_reason: Some(s("tool_calls")),
        content: None,
        tool_calls: vec![call("c1", "update_node", "{ \"label\": \"b\",\n  \"canvas\": \"main\" }")],
    };
    let turn = assistant_turn(&from_chat_reply(&reply));
    let chat = to_chat_messages("SYS", &vec![turn]);
    assert_eq!(
        describe(&chat[1]),
        s("assistant:None:Some([\"c1/update_node/{\\\"canvas\\\":\\\"main\\\",\\\"label\\\":\\\"b\\\"}\"])")
    );
}
