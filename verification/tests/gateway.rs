use smsg_gateway::msg::{decode_message, Message};
use smsg_gateway::server::{handle_payload, response_for};
use smsg_gateway::msg::Request;

fn frame(payload: &[u8]) -> Vec<u8> {
    let mut f = vec![0xffu8, 0xff];
    f.push((payload.len() / 256) as u8);
    f.push((payload.len() % 256) as u8);
    f.push(0);
    f.push(0);
    f.extend_from_slice(payload);
    f
}

#[test]
fn request_payload_is_forwarded_and_answered() {
    let payload = b"7 create widget SMSG/0.1\n".to_vec();
    let plan = handle_payload(&payload);
    assert_eq!(plan.forward, frame(&payload));
    assert_eq!(plan.reply.unwrap(), frame(b"SMSG/0.1 7 200 OK\n"));
}

#[test]
fn response_payload_is_forwarded_but_not_answered() {
    let payload = b"SMSG/0.1 7 200 OK\n".to_vec();
    let plan = handle_payload(&payload);
    assert_eq!(plan.forward, frame(&payload));
    assert!(plan.reply.is_none());
}

#[test]
fn unparseable_payload_is_still_forwarded_verbatim() {
    let payload = b"one two three\n".to_vec();
    let plan = handle_payload(&payload);
    assert_eq!(plan.forward, frame(&payload));
    assert!(plan.reply.is_none());
}

#[test]
fn each_connection_gets_its_own_id_echoed_back() {
    // Two well-formed requests from two independent connections: each
    // reply carries that connection's own id, with no confusion.
    let first = b"7 create widget SMSG/0.1\n".to_vec();
    let second = b"8 delete widget SMSG/0.1\n".to_vec();
    let plan1 = handle_payload(&first);
    let plan2 = handle_payload(&second);
    let reply1 = plan1.reply.unwrap();
    let reply2 = plan2.reply.unwrap();
    let body1 = reply1[6..].to_vec();
    let body2 = reply2[6..].to_vec();
    match decode_message(&body1).unwrap() {
        Message::Response(r) => {
            assert_eq!(r.id, 7);
            assert_eq!(r.code, 200);
            assert_eq!(r.text, "OK");
        },
        Message::Request(_) => panic!("reply is not a response"),
    }
    match decode_message(&body2).unwrap() {
        Message::Response(r) => {
            assert_eq!(r.id, 8);
            assert_eq!(r.code, 200);
            assert_eq!(r.text, "OK");
        },
        Message::Request(_) => panic!("reply is not a response"),
    }
}

#[test]
fn synthesized_response_echoes_protocol_version_and_id() {
    let req = Request::new(
        "OTHER".to_string(),
        "2.0".to_string(),
        41,
        "ping".to_string(),
        "node".to_string(),
        None,
    );
    let resp = response_for(req);
    assert_eq!(resp.protocol, "OTHER");
    assert_eq!(resp.version, "2.0");
    assert_eq!(resp.id, 41);
    assert_eq!(resp.code, 200);
    assert_eq!(resp.text, "OK");
    assert!(resp.body.is_none());
}

#[test]
fn request_body_does_not_change_the_reply() {
    let payload = b"5 set lamp SMSG/0.1\n{\"level\": 3}".to_vec();
    let plan = handle_payload(&payload);
    assert_eq!(plan.forward, frame(&payload));
    assert_eq!(plan.reply.unwrap(), frame(b"SMSG/0.1 5 200 OK\n"));
}
