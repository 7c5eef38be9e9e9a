use vstd::prelude::*;

verus! {

/// The server's answer to a request for a room, as far as a host reads it: the room's
/// key, where the answer holds one as text.
pub struct RoomReply {
    pub room_id: Option<String>,
}

/// What a host shows after asking the server for a room, and whether a room was
/// created: the room's key; "json parse failed" when the answer could not be read at all
/// (`None`); "bad server response" when it holds no key.
pub fn room_key_from_reply(reply: Option<RoomReply>) -> (r: (bool, String))
    ensures
        match reply {
            None => !r.0 && r.1@ == "json parse failed"@,
            Some(RoomReply { room_id: None }) => !r.0 && r.1@ == "bad server response"@,
            Some(RoomReply { room_id: Some(id) }) => r.0 && r.1@ == id@,
        },
{
    match reply {
        None => (false, "json parse failed".to_owned()),
        Some(RoomReply { room_id: None }) => (false, "bad server response".to_owned()),
        Some(RoomReply { room_id: Some(id) }) => (true, id),
    }
}

} // verus!
