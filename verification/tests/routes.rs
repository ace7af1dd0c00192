use pegaflow::router::{
    ack_inspect_text, ack_step, ack_timeout_text, decode_body, marker_name, prefill_ack_config,
    prefill_body, request_id, request_id_or, streams, validate_marker_request_id, AckStep,
    JsonField, NodePool, NodeReply, PrefillAckConfig, RequestBody, Route, RouteState, RouteStep,
    RouterState,
};

#[test]
fn visibility_marker_request_ids_are_path_safe() {
    assert!(validate_marker_request_id("issue23-p9-smoke-measure-0001").is_ok());
    assert!(validate_marker_request_id("../escape").is_err());
    assert!(validate_marker_request_id("").is_err());
    assert!(validate_marker_request_id("request/child").is_err());
}

#[test]
fn unsafe_request_ids_are_quoted() {
    assert_eq!(
        validate_marker_request_id("a\"b\n").unwrap_err(),
        format!("request id {:?} is unsafe for a visibility marker", "a\"b\n")
    );
    assert!(validate_marker_request_id("\u{fc}ber").is_err());
    assert!(validate_marker_request_id("A.z_0-9").is_ok());
}

fn body(fields: &[(&str, JsonField)]) -> RequestBody {
    let mut body = RequestBody::new();
    for (name, value) in fields {
        body.set(name, value.duplicate());
    }
    body
}

fn text(s: &str) -> JsonField {
    JsonField::Text(s.to_string())
}

fn raw(s: &str) -> JsonField {
    JsonField::Raw(s.to_string())
}

#[test]
fn prefill_asks_for_one_token() {
    let asked = body(&[
        ("prompt", text("hi")),
        ("max_tokens", JsonField::Int(100)),
        ("min_tokens", JsonField::Int(7)),
        ("stream", JsonField::Bool(true)),
        ("stream_options", raw("{\"include_usage\":true}")),
    ]);
    let p = prefill_body(&asked, "id-1");
    assert_eq!(p.get("max_tokens"), Some(&JsonField::Int(1)));
    assert_eq!(p.get("min_tokens"), Some(&JsonField::Int(1)));
    assert_eq!(p.get("stream"), Some(&JsonField::Bool(false)));
    assert_eq!(p.get("request_id"), Some(&text("id-1")));
    assert_eq!(p.get("stream_options"), None);
    assert_eq!(p.get("prompt"), Some(&text("hi")));

    let negative = prefill_body(&body(&[("min_tokens", JsonField::Int(-3))]), "x");
    assert_eq!(negative.get("min_tokens"), Some(&JsonField::Int(-3)));
    let odd = prefill_body(&body(&[("min_tokens", raw("2.5"))]), "x");
    assert_eq!(odd.get("min_tokens"), Some(&JsonField::Int(0)));
    let absent = prefill_body(&body(&[]), "x");
    assert_eq!(absent.get("min_tokens"), Some(&JsonField::Int(0)));
}

#[test]
fn decode_is_asked_what_the_router_was() {
    let asked = body(&[
        ("max_tokens", JsonField::Int(100)),
        ("stream", JsonField::Bool(true)),
        ("stream_options", raw("{}")),
    ]);
    let d = decode_body(asked.duplicate(), "id-1");
    assert_eq!(d.get("max_tokens"), Some(&JsonField::Int(100)));
    assert_eq!(d.get("stream"), Some(&JsonField::Bool(true)));
    assert_eq!(d.get("stream_options"), Some(&raw("{}")));
    assert_eq!(d.get("request_id"), Some(&text("id-1")));
    let plain = decode_body(body(&[("stream", raw("\"yes\""))]), "id-2");
    assert_eq!(plain.get("stream"), Some(&JsonField::Bool(false)));
    assert!(!streams(&body(&[])));
    assert_eq!(d.into_fields().len(), 4);
}

#[test]
fn requests_keep_their_names_or_get_one() {
    let named = body(&[("request_id", text("mine"))]);
    assert_eq!(request_id(&named), "mine");
    assert_eq!(request_id_or(&body(&[]), "drawn".to_string()), "drawn");
    assert_eq!(request_id_or(&body(&[("request_id", JsonField::Int(4))]), "d".to_string()), "d");
    let first = request_id(&body(&[]));
    let second = request_id(&body(&[]));
    assert_ne!(first, second);
    assert_eq!(first.len(), 36);
    assert_eq!(first.as_bytes()[14], b'4');
    assert!(validate_marker_request_id(&first).is_ok());
}

fn router() -> RouterState {
    RouterState::new(
        vec!["http://p0".to_string(), "http://p1".to_string()],
        vec!["http://d0".to_string()],
    )
}

#[test]
fn nodes_take_turns_and_are_counted() {
    let mut pool = NodePool::new(vec!["a".to_string(), "b".to_string()]);
    assert_eq!((pool.next(), pool.next(), pool.next()), (0, 1, 0));
    assert_eq!(pool.inflight, vec![2, 1]);
    pool.finish(0);
    assert_eq!(pool.inflight, vec![1, 1]);
    assert_eq!(router().get_inflight_summary(), "P=[0, 0] D=[0]");
}

#[test]
fn a_request_goes_from_prefill_to_decode() {
    let mut router = router();
    let (mut route, step) =
        Route::begin(&mut router, body(&[]), "r1".to_string(), "/v1/completions");
    match step {
        RouteStep::SendPrefill { url, body } => {
            assert_eq!(url, "http://p0/v1/completions");
            assert_eq!(body.get("max_tokens"), Some(&JsonField::Int(1)));
        }
        other => panic!("{other:?}"),
    }
    assert_eq!(router.get_inflight_summary(), "P=[1, 0] D=[0]");
    let step = route.on_prefill(&mut router, NodeReply::Answered { status: 200 }, true);
    assert!(matches!(step, RouteStep::WaitForAck));
    assert_eq!(router.get_inflight_summary(), "P=[1, 0] D=[0]");
    match route.on_ack(&mut router, Ok(())) {
        RouteStep::SendDecode { url, .. } => assert_eq!(url, "http://d0/v1/completions"),
        other => panic!("{other:?}"),
    }
    assert_eq!(router.get_inflight_summary(), "P=[0, 0] D=[1]");
    let step = route.on_decode(&mut router, NodeReply::Answered { status: 500 });
    assert!(matches!(step, RouteStep::RelayDecode));
    assert_eq!(route.state, RouteState::Done);
    assert_eq!(router.get_inflight_summary(), "P=[0, 0] D=[0]");
}

#[test]
fn streams_keep_their_node_until_they_end() {
    let mut router = router();
    let (mut route, _) = Route::begin(
        &mut router,
        body(&[("stream", JsonField::Bool(true))]),
        "r1".to_string(),
        "/v1/chat/completions",
    );
    route.on_prefill(&mut router, NodeReply::Answered { status: 204 }, false);
    let step = route.on_decode(&mut router, NodeReply::Answered { status: 200 });
    assert!(matches!(step, RouteStep::StreamDecode));
    assert_eq!(router.get_inflight_summary(), "P=[0, 0] D=[1]");
    route.on_stream_end(&mut router);
    assert_eq!(router.get_inflight_summary(), "P=[0, 0] D=[0]");
}

#[test]
fn failures_are_answered_and_leave_no_counts() {
    let cases: Vec<(NodeReply, &str)> = vec![
        (NodeReply::Unreachable("down".to_string()), "Prefill node error: down"),
        (NodeReply::Unreadable("eof".to_string()), "Prefill response error: eof"),
    ];
    for (reply, wanted) in cases {
        let mut router = router();
        let (mut route, _) = Route::begin(&mut router, body(&[]), "r".to_string(), "/x");
        match route.on_prefill(&mut router, reply, false) {
            RouteStep::Fail { status, error } => assert_eq!((status, error.as_str()), (502, wanted)),
            other => panic!("{other:?}"),
        }
        assert_eq!(router.get_inflight_summary(), "P=[0, 0] D=[0]");
    }
    let mut router = router();
    let (mut route, _) = Route::begin(&mut router, body(&[]), "r".to_string(), "/x");
    let step = route.on_prefill(&mut router, NodeReply::Answered { status: 429 }, true);
    assert!(matches!(step, RouteStep::RelayPrefill));
    let (mut route, _) = Route::begin(&mut router, body(&[]), "r".to_string(), "/x");
    route.on_prefill(&mut router, NodeReply::Answered { status: 200 }, true);
    match route.on_ack(&mut router, Err("late".to_string())) {
        RouteStep::Fail { status, error } => {
            assert_eq!((status, error.as_str()), (504, "Prefill visibility error: late"))
        }
        other => panic!("{other:?}"),
    }
    let (mut route, _) = Route::begin(&mut router, body(&[]), "r".to_string(), "/x");
    route.on_prefill(&mut router, NodeReply::Answered { status: 200 }, false);
    match route.on_decode(&mut router, NodeReply::Unreachable("gone".to_string())) {
        RouteStep::Fail { status, error } => {
            assert_eq!((status, error.as_str()), (502, "Decode node error: gone"))
        }
        other => panic!("{other:?}"),
    }
    assert_eq!(router.get_inflight_summary(), "P=[0, 0] D=[0]");
}

#[test]
fn acknowledgements_are_waited_for_with_all_options_or_none() {
    assert!(matches!(prefill_ack_config(None, 0, 120), Ok(None)));
    let config = prefill_ack_config(Some("/acks"), 2, 120).unwrap().unwrap();
    assert_eq!((config.directory.as_str(), config.ranks, config.timeout_secs), ("/acks", 2, 120));
    for refused in [
        prefill_ack_config(Some("/acks"), 0, 120),
        prefill_ack_config(Some("/acks"), 2, 0),
        prefill_ack_config(None, 1, 120),
    ] {
        assert!(refused.unwrap_err().contains("must be configured together"));
    }
}

#[test]
fn markers_are_looked_for_until_the_time_is_up() {
    let config = PrefillAckConfig { directory: "/acks".to_string(), ranks: 2, timeout_secs: 3 };
    assert_eq!(marker_name("req-1", 1), "req-1.tp1.visible");
    assert_eq!(ack_step(&config, &[true, true], 9_000), AckStep::Visible);
    assert_eq!(ack_step(&config, &[true, false], 2_999), AckStep::Wait);
    assert_eq!(ack_step(&config, &[true, false], 3_000), AckStep::TimedOut);
    assert_eq!(
        ack_timeout_text(&config),
        format!("timed out after {:.3}s waiting for 2 TP visibility markers in /acks", 3.0)
    );
    assert_eq!(
        ack_inspect_text("/acks/x", "denied"),
        "cannot inspect visibility marker /acks/x: denied"
    );
}
