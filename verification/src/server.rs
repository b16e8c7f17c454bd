//! Per-connection decision logic.
//!
//! For every payload decoded off a client connection the gateway does two
//! things: it re-frames the raw payload verbatim for the transport-bound
//! relay, whether or not it parses; and, when the payload parses as a
//! request, it synthesizes a `200 OK` response and frames it for the same
//! client.  A payload that parses as a response, or fails to parse, gets
//! no reply.

use vstd::prelude::*;
use crate::codec::{TwoByteLenSkipReserved, MAX_FRAME_SIZE, MAX_LEN_FIELD, spec_frame};
use crate::msg::{Request, Response, Message, ReqData, RespData, MsgData, parse_msg,
    resp_payload, decode_message};

verus! {

/// What the gateway does with one decoded payload.
pub struct PayloadPlan {
    /// The payload re-framed for the transport-bound relay.
    pub forward: Vec<u8>,
    /// The framed reply owed to the same client, if any.
    pub reply: Option<Vec<u8>>,
}

/// The response synthesized for a request: the request's own protocol,
/// version and id, code 200, text `OK`, and no body.
pub open spec fn synth_resp(r: ReqData) -> RespData {
    RespData {
        protocol: r.protocol,
        version: r.version,
        id: r.id,
        code: 200,
        text: seq!['O', 'K'],
        body: None,
    }
}

/// Synthesize the `200 OK` response for a request, echoing its protocol,
/// version and id.
pub fn response_for(req: Request) -> (resp: Response)
    ensures
        resp@ == synth_resp(req@),
{
    proof {
        reveal_strlit("OK");
    }
    let text = "OK".to_owned();
    assert(text@ =~= seq!['O', 'K']);
    let ghost rv = req@;
    let Request { protocol, version, id, action: _, kind: _, body: _ } = req;
    let r = Response::new(protocol, version, id, 200, text, None);
    proof {
        assert(r@ =~= synth_resp(rv));
    }
    r
}

/// Handle one decoded payload: re-frame it for the relay and, when it is
/// a request, frame its synthesized reply.
///
/// The reply is absent when the payload is no well-formed request, and
/// also when the synthesized reply itself would not fit in one frame.
pub fn handle_payload(payload: &Vec<u8>) -> (plan: PayloadPlan)
    requires
        payload@.len() <= MAX_LEN_FIELD,
    ensures
        plan.forward@ == spec_frame(payload@),
        ({
            match parse_msg(payload@) {
                Ok(MsgData::Request(rd)) => {
                    let rp = resp_payload(synth_resp(rd));
                    if rp.len() <= MAX_LEN_FIELD {
                        plan.reply matches Some(f) && f@ == spec_frame(rp)
                    } else {
                        plan.reply is None
                    }
                },
                _ => plan.reply is None,
            }
        }),
{
    let codec = TwoByteLenSkipReserved::new(MAX_FRAME_SIZE);
    assert(codec.encode_cap() == MAX_LEN_FIELD);
    let mut forward: Vec<u8> = Vec::new();
    let fr = codec.encode(payload, &mut forward);
    proof {
        assert(fr is Ok);
        assert(forward@ =~= spec_frame(payload@));
    }
    let reply: Option<Vec<u8>> = match decode_message(payload) {
        Ok(Message::Request(req)) => {
            let resp = response_for(req);
            let rp = resp.encode();
            let mut rf: Vec<u8> = Vec::new();
            match codec.encode(&rp, &mut rf) {
                Ok(_) => {
                    proof {
                        assert(rf@ =~= spec_frame(rp@));
                    }
                    Some(rf)
                },
                Err(_) => None,
            }
        },
        _ => None,
    };
    PayloadPlan { forward, reply }
}

} // verus!
