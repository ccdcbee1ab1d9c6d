use epoll_server::epoll::{
    classify_event, epoll_create, listener_read_event, listener_write_event, EpollError,
    EpollEvent, EventKind, READ_FLAGS, WRITE_FLAGS,
};
use epoll_server::event_loop::{Action, EventLoop, LISTENER_KEY};
use epoll_server::http::{http_response, ConnState, HttpError, ReadOutcome, RequestContext};
use epoll_server::registry::Registry;

#[test]
fn interest_events_carry_flags_and_key() {
    let r = listener_read_event(7);
    assert_eq!(r.events, READ_FLAGS);
    assert_eq!(r.key, 7);
    let w = listener_write_event(9);
    assert_eq!(w.events, WRITE_FLAGS);
    assert_eq!(w.key, 9);
}

#[test]
fn classify_prefers_readable_over_writable() {
    assert_eq!(classify_event(READ_FLAGS), EventKind::Readable);
    assert_eq!(classify_event(WRITE_FLAGS), EventKind::Writable);
    assert_eq!(classify_event(0x1 | 0x4), EventKind::Readable);
    assert_eq!(classify_event(0), EventKind::Other);
    assert_eq!(classify_event(0x8), EventKind::Other);
}

#[test]
fn epoll_table_add_modify_remove_close() {
    let mut ep = epoll_create();
    assert_eq!(ep.add_interest(3, listener_read_event(101)), Ok(()));
    assert_eq!(
        ep.add_interest(3, listener_read_event(102)),
        Err(EpollError::AlreadyRegistered)
    );
    assert_eq!(
        ep.add_interest(-1, listener_read_event(103)),
        Err(EpollError::InvalidDescriptor)
    );
    assert_eq!(
        ep.modify_interest(4, listener_read_event(101)),
        Err(EpollError::NotRegistered)
    );
    assert_eq!(ep.modify_interest(3, listener_write_event(101)), Ok(()));
    assert_eq!(ep.armed_event(3), Some(listener_write_event(101)));
    assert_eq!(ep.remove_interest(3), Ok(()));
    assert_eq!(ep.remove_interest(3), Err(EpollError::NotRegistered));
    assert!(!ep.registered(3));
    assert_eq!(ep.add_interest(3, listener_read_event(104)), Ok(()));
    ep.close(3);
    assert!(!ep.registered(3));
}

#[test]
fn registry_insert_take_getters() {
    let mut reg = Registry::new();
    assert_eq!(reg.len(), 0);
    assert!(!reg.contains_key(101));
    reg.insert(101, RequestContext::new(5));
    assert_eq!(reg.len(), 1);
    assert!(reg.contains_key(101));
    assert_eq!(reg.state_of(101), Some(ConnState::Reading));
    assert_eq!(reg.buffered_len(101), Some(0));
    assert_eq!(reg.content_length_of(101), Some(0));
    let ctx = reg.take(101);
    assert!(ctx.is_some());
    assert_eq!(ctx.unwrap().fd, 5);
    assert!(!reg.contains_key(101));
    assert!(reg.take(101).is_none());
}

#[test]
fn header_detection_is_case_insensitive() {
    let variants: [&[u8]; 3] = [
        b"GET / HTTP/1.1\r\nContent-Length: 5\r\n\r\n",
        b"GET / HTTP/1.1\r\ncontent-length: 5\r\n\r\n",
        b"GET / HTTP/1.1\r\nCONTENT-LENGTH: 5\r\n\r\n",
    ];
    for v in variants {
        let mut ctx = RequestContext::new(3);
        assert_eq!(ctx.parse_and_set_content_length(v), Ok(()));
        assert_eq!(ctx.content_length, 5);
    }
}

#[test]
fn header_needs_http_substring() {
    let mut ctx = RequestContext::new(3);
    assert_eq!(
        ctx.parse_and_set_content_length(b"content-length: 5\r\n\r\n"),
        Ok(())
    );
    assert_eq!(ctx.content_length, 0);
}

#[test]
fn header_value_must_be_digits() {
    let mut ctx = RequestContext::new(3);
    assert_eq!(
        ctx.parse_and_set_content_length(b"GET / HTTP/1.1\r\ncontent-length: abc\r\n\r\n"),
        Err(HttpError::InvalidContentLength)
    );
    assert_eq!(ctx.content_length, 0);
}

#[test]
fn header_value_empty_is_malformed() {
    let mut ctx = RequestContext::new(3);
    assert_eq!(
        ctx.parse_and_set_content_length(b"GET / HTTP/1.1\r\ncontent-length: \r\n\r\n"),
        Err(HttpError::InvalidContentLength)
    );
}

#[test]
fn header_value_overflow_is_malformed() {
    let mut ctx = RequestContext::new(3);
    assert_eq!(
        ctx.parse_and_set_content_length(
            b"GET / HTTP/1.1\r\ncontent-length: 99999999999999999999999999\r\n\r\n"
        ),
        Err(HttpError::InvalidContentLength)
    );
}

#[test]
fn header_scan_requires_utf8_text() {
    let mut ctx = RequestContext::new(3);
    let mut data = b"GET / HTTP/1.1\r\ncontent-length: 5\r\n\r\n".to_vec();
    data.push(0xFF);
    assert_eq!(ctx.parse_and_set_content_length(&data), Ok(()));
    assert_eq!(ctx.content_length, 0);
    let mut bad = b"GET / HTTP/1.1\r\ncontent-length: abc\r\n\r\n".to_vec();
    bad.push(0xFF);
    assert_eq!(ctx.parse_and_set_content_length(&bad), Ok(()));
    assert_eq!(ctx.content_length, 0);
    let mut ok = b"GET / HTTP/1.1\r\ncontent-length: 7\r\n\r\n".to_vec();
    ok.push(0xC3);
    ok.push(0xA9);
    assert_eq!(ctx.parse_and_set_content_length(&ok), Ok(()));
    assert_eq!(ctx.content_length, 7);
}

#[test]
fn non_utf8_read_is_appended_without_scan() {
    let mut lp = EventLoop::new(5).unwrap();
    let k = lp.handle_listener_event(Some(7)).unwrap();
    let mut data = b"GET / HTTP/1.1\r\ncontent-length: 5\r\n\r\n".to_vec();
    data.push(0xFF);
    let n = data.len();
    let armed = lp.handle_readable(k, ReadOutcome::Data(data)).unwrap();
    assert_eq!(armed, EpollEvent { events: WRITE_FLAGS, key: k });
    assert_eq!(lp.contexts.buffered_len(k), Some(n));
    assert_eq!(lp.contexts.content_length_of(k), Some(0));
}

#[test]
fn header_value_may_carry_one_plus_sign() {
    let mut ctx = RequestContext::new(3);
    assert_eq!(
        ctx.parse_and_set_content_length(b"GET / HTTP/1.1\r\ncontent-length: +5\r\n\r\n"),
        Ok(())
    );
    assert_eq!(ctx.content_length, 5);
    let mut ctx2 = RequestContext::new(3);
    assert_eq!(
        ctx2.parse_and_set_content_length(b"GET / HTTP/1.1\r\ncontent-length: ++5\r\n\r\n"),
        Err(HttpError::InvalidContentLength)
    );
    assert_eq!(
        ctx2.parse_and_set_content_length(b"GET / HTTP/1.1\r\ncontent-length: +\r\n\r\n"),
        Err(HttpError::InvalidContentLength)
    );
}

#[test]
fn header_already_set_is_kept() {
    let mut ctx = RequestContext::new(3);
    assert_eq!(
        ctx.parse_and_set_content_length(b"GET / HTTP/1.1\r\ncontent-length: 5\r\n\r\n"),
        Ok(())
    );
    assert_eq!(ctx.content_length, 5);
    assert_eq!(
        ctx.parse_and_set_content_length(b"GET / HTTP/1.1\r\ncontent-length: 7\r\n\r\n"),
        Ok(())
    );
    assert_eq!(ctx.content_length, 5);
}

#[test]
fn response_is_the_fixed_payload() {
    let resp = http_response();
    assert!(resp.starts_with("HTTP/1.1 200 OK\n"));
    assert!(resp.contains("content-type: text/html\n"));
    assert!(resp.contains("content-length: 28\n"));
    assert!(resp.ends_with("\n\nHello! I am an epoll server."));
    let body = "Hello! I am an epoll server.";
    assert_eq!(body.len(), 28);
}

#[test]
fn scenario_one_write_request_is_answered_and_retired() {
    let mut lp = EventLoop::new(5).unwrap();
    assert_eq!(lp.key, LISTENER_KEY);
    let ev = EpollEvent { events: READ_FLAGS, key: LISTENER_KEY };
    assert_eq!(lp.dispatch(ev), Action::AcceptConnection);
    let k = lp.handle_listener_event(Some(7)).unwrap();
    assert_eq!(k, 101);
    assert_eq!(lp.contexts.state_of(k), Some(ConnState::Reading));

    let ready = EpollEvent { events: READ_FLAGS, key: k };
    assert_eq!(lp.dispatch(ready), Action::ReadFrom(k));
    let request = b"GET / HTTP/1.1\r\nContent-Length: 0\r\n\r\n".to_vec();
    let armed = lp.handle_readable(k, ReadOutcome::Data(request)).unwrap();
    assert_eq!(armed, EpollEvent { events: WRITE_FLAGS, key: k });
    assert_eq!(lp.contexts.state_of(k), Some(ConnState::Writing));
    assert_eq!(lp.contexts.content_length_of(k), Some(0));

    let writable = EpollEvent { events: WRITE_FLAGS, key: k };
    assert_eq!(lp.dispatch(writable), Action::WriteTo(k));
    let resp = lp.handle_writable(k);
    assert_eq!(resp, http_response());
    assert!(!lp.contexts.contains_key(k));
    assert_eq!(lp.dispatch(writable), Action::Ignore);
    assert_eq!(lp.dispatch(ready), Action::Ignore);
}

#[test]
fn scenario_silent_client_stays_armed_for_reads() {
    let mut lp = EventLoop::new(5).unwrap();
    let k = lp.handle_listener_event(Some(7)).unwrap();
    let mut round: i32 = 0;
    while round < 3 {
        let armed = lp.handle_readable(k, ReadOutcome::WouldBlock).unwrap();
        assert_eq!(armed, EpollEvent { events: READ_FLAGS, key: k });
        assert_eq!(lp.contexts.state_of(k), Some(ConnState::Reading));
        assert_eq!(lp.contexts.buffered_len(k), Some(0));
        round += 1;
    }
    assert!(lp.contexts.contains_key(k));
}

#[test]
fn scenario_two_clients_get_distinct_keys_and_do_not_interfere() {
    let mut lp = EventLoop::new(5).unwrap();
    let k1 = lp.handle_listener_event(Some(7)).unwrap();
    let k2 = lp.handle_listener_event(Some(8)).unwrap();
    assert_eq!(k1, 101);
    assert_eq!(k2, 102);
    assert_ne!(k1, k2);

    let partial = b"POST / HTTP/1.1\r\nContent-Length: 100\r\n\r\n".to_vec();
    let partial_len = partial.len();
    let armed = lp.handle_readable(k1, ReadOutcome::Data(partial)).unwrap();
    assert_eq!(armed, EpollEvent { events: READ_FLAGS, key: k1 });

    let full = b"GET / HTTP/1.1\r\nContent-Length: 0\r\n\r\n".to_vec();
    let armed2 = lp.handle_readable(k2, ReadOutcome::Data(full)).unwrap();
    assert_eq!(armed2, EpollEvent { events: WRITE_FLAGS, key: k2 });
    let _ = lp.handle_writable(k2);
    assert!(!lp.contexts.contains_key(k2));

    assert!(lp.contexts.contains_key(k1));
    assert_eq!(lp.contexts.buffered_len(k1), Some(partial_len));
    assert_eq!(lp.contexts.state_of(k1), Some(ConnState::Reading));
    assert_eq!(lp.contexts.content_length_of(k1), Some(100));

    let k3 = lp.handle_listener_event(Some(9)).unwrap();
    assert_eq!(k3, 103);
}

#[test]
fn scenario_body_split_across_two_reads_accumulates() {
    let mut lp = EventLoop::new(5).unwrap();
    let k = lp.handle_listener_event(Some(7)).unwrap();
    let head = b"POST / HTTP/1.1\r\nContent-Length: 100\r\n\r\n".to_vec();
    let head_len = head.len();
    let armed = lp.handle_readable(k, ReadOutcome::Data(head)).unwrap();
    assert_eq!(armed, EpollEvent { events: READ_FLAGS, key: k });
    assert_eq!(lp.contexts.state_of(k), Some(ConnState::Reading));

    assert_eq!(head_len, 40);
    let mid = vec![121u8; 30];
    let armed2 = lp.handle_readable(k, ReadOutcome::Data(mid)).unwrap();
    assert_eq!(armed2, EpollEvent { events: READ_FLAGS, key: k });
    assert_eq!(lp.contexts.state_of(k), Some(ConnState::Reading));
    assert_eq!(lp.contexts.buffered_len(k), Some(70));
    let rest = vec![120u8; 30];
    let armed3 = lp.handle_readable(k, ReadOutcome::Data(rest)).unwrap();
    assert_eq!(armed3, EpollEvent { events: WRITE_FLAGS, key: k });
    assert_eq!(lp.contexts.state_of(k), Some(ConnState::Writing));
}

#[test]
fn stale_keys_are_ignored() {
    let mut lp = EventLoop::new(5).unwrap();
    let before = lp.contexts.len();
    let ev = EpollEvent { events: READ_FLAGS, key: 999 };
    assert_eq!(lp.dispatch(ev), Action::Ignore);
    assert_eq!(lp.contexts.len(), before);
}

#[test]
fn listener_rearmed_after_every_listener_event() {
    let mut lp = EventLoop::new(5).unwrap();
    assert_eq!(lp.handle_listener_event(None), None);
    assert_eq!(
        lp.epoll.armed_event(5),
        Some(EpollEvent { events: READ_FLAGS, key: LISTENER_KEY })
    );
    let k = lp.handle_listener_event(Some(7)).unwrap();
    assert_eq!(
        lp.epoll.armed_event(5),
        Some(EpollEvent { events: READ_FLAGS, key: LISTENER_KEY })
    );
    assert_eq!(
        lp.epoll.armed_event(7),
        Some(EpollEvent { events: READ_FLAGS, key: k })
    );
}

#[test]
fn malformed_header_tears_down_only_that_connection() {
    let mut lp = EventLoop::new(5).unwrap();
    let k1 = lp.handle_listener_event(Some(7)).unwrap();
    let k2 = lp.handle_listener_event(Some(8)).unwrap();
    let bad = b"GET / HTTP/1.1\r\ncontent-length: zero\r\n\r\n".to_vec();
    let r = lp.handle_readable(k1, ReadOutcome::Data(bad));
    assert_eq!(r, Err(HttpError::InvalidContentLength));
    assert!(!lp.contexts.contains_key(k1));
    assert!(!lp.epoll.registered(7));
    assert!(lp.contexts.contains_key(k2));
    assert!(lp.epoll.registered(8));
}

#[test]
fn teardown_is_total_and_targets_one_key() {
    let mut lp = EventLoop::new(5).unwrap();
    let k1 = lp.handle_listener_event(Some(7)).unwrap();
    let k2 = lp.handle_listener_event(Some(8)).unwrap();
    lp.teardown_connection(k1);
    assert!(!lp.contexts.contains_key(k1));
    assert!(!lp.epoll.registered(7));
    assert!(lp.contexts.contains_key(k2));
    lp.teardown_connection(k1);
    assert!(lp.contexts.contains_key(k2));
    lp.teardown_connection(999);
    assert!(lp.contexts.contains_key(k2));
}

#[test]
fn negative_listener_descriptor_is_refused() {
    assert!(EventLoop::new(-1).is_err());
    assert!(EventLoop::new(0).is_ok());
}
