//! The event channel to the supervisor and the command channel from it.
//!
//! Downstream, the transport reports results as length-prefixed protobuf
//! events; [`BleResultSender`] builds each event and keeps it in an outbox
//! that the host drains into the real channel. Upstream, the supervisor's
//! commands arrive as the same wire format and are decoded into plain
//! command values.
//!
//! The envelope is one length-delimited field whose number names the
//! event: info request 1, start request 2, stop request 3, direct send 4,
//! start result 5, stop result 6, info response 7, device discovered 8,
//! device unavailable 9, direct received 10, direct send result 11.

use vstd::prelude::*;

use crate::info::BleDeviceInfo;
use crate::proto::FieldVal;
use crate::proto::GField;
use crate::proto::clone_bytes;
use crate::proto::encode_field;
use crate::proto::encode_fields;
use crate::proto::fields_view;
use crate::proto::get_last_bytes;
use crate::proto::get_last_num;
use crate::proto::last_bytes;
use crate::proto::last_num;
use crate::proto::parse_fields;
use crate::proto::push_field_bytes;
use crate::proto::push_field_num;
use crate::proto::read_fields;
use vstd::string::StrSliceExecFns;
use vstd::string::StringSliceAdditionalSpecFns;

verus! {

/// A varint for a flag: one for true, zero for false.
pub open spec fn bool_num(b: bool) -> u64 {
    if b {
        1
    } else {
        0
    }
}

/// The 64-bit two's-complement value of a signed 32-bit number, as
/// protobuf carries plain int32 fields.
pub open spec fn sint64_of(v: i32) -> u64 {
    if v >= 0 {
        v as u64
    } else {
        (0x10000000000000000 + v) as u64
    }
}

/// Compute the two's-complement varint value of a signed number.
pub fn to_sint64(v: i32) -> (r: u64)
    ensures
        r == sint64_of(v),
{
    if v >= 0 {
        v as u64
    } else {
        let mag = (-(v as i64)) as u64;
        u64::MAX - mag + 1
    }
}

/// Appending one field appends its wire text.
pub proof fn lemma_encode_push(fs: Seq<GField>, x: GField)
    ensures
        encode_fields(fs.push(x)) =~= encode_fields(fs) + encode_field(x),
    decreases fs.len(),
{
    if fs.len() == 0 {
        reveal_with_fuel(encode_fields, 2);
        assert(fs.push(x)[0] == x);
        assert(fs.push(x).drop_first() =~= Seq::<GField>::empty());
        assert(fs =~= Seq::<GField>::empty());
    } else {
        assert(fs.push(x)[0] == fs[0]);
        assert(fs.push(x).drop_first() =~= fs.drop_first().push(x));
        lemma_encode_push(fs.drop_first(), x);
    }
}

// ------------------------------------------------------------------
// Field layouts of the event messages.
// ------------------------------------------------------------------

pub open spec fn start_result_fields(success: bool, error_reason: u64, msg: Seq<u8>) -> Seq<
    GField,
> {
    seq![
        GField::Num(1, bool_num(success)),
        GField::Num(2, error_reason),
        GField::Bytes(3, msg),
    ]
}

pub open spec fn stop_result_fields(success: bool, error_reason: u64, msg: Seq<u8>) -> Seq<
    GField,
> {
    seq![
        GField::Num(1, bool_num(success)),
        GField::Num(2, error_reason),
        GField::Bytes(3, msg),
    ]
}

pub open spec fn device_discovered_fields(qaul_id: Seq<u8>, rssi: i32) -> Seq<GField> {
    seq![GField::Bytes(1, qaul_id), GField::Num(2, sint64_of(rssi))]
}

pub open spec fn device_unavailable_fields(qaul_id: Seq<u8>) -> Seq<GField> {
    seq![GField::Bytes(1, qaul_id)]
}

pub open spec fn direct_received_fields(from: Seq<u8>, data: Seq<u8>) -> Seq<GField> {
    seq![GField::Bytes(1, from), GField::Bytes(2, data)]
}

pub open spec fn direct_send_result_fields(id: Seq<u8>, success: bool, msg: Seq<u8>) -> Seq<
    GField,
> {
    seq![GField::Bytes(1, id), GField::Num(2, bool_num(success)), GField::Bytes(3, msg)]
}

pub open spec fn device_info_fields(info: BleDeviceInfo) -> Seq<GField> {
    seq![
        GField::Num(1, bool_num(info.ble_support)),
        GField::Bytes(2, info.id@),
        GField::Bytes(3, info.name@),
        GField::Num(4, bool_num(info.bluetooth_on)),
        GField::Num(5, bool_num(info.adv_extended)),
        GField::Num(6, info.adv_extended_bytes as u64),
        GField::Num(7, bool_num(info.le_2m)),
        GField::Num(8, bool_num(info.le_coded)),
        GField::Num(9, bool_num(info.le_audio)),
        GField::Num(10, bool_num(info.le_periodic_adv_support)),
        GField::Num(11, bool_num(info.le_multiple_adv_support)),
        GField::Num(12, bool_num(info.offload_filter_support)),
        GField::Num(13, bool_num(info.offload_scan_batching_support)),
    ]
}

pub open spec fn info_response_fields(info: BleDeviceInfo) -> Seq<GField> {
    seq![GField::Bytes(1, encode_fields(device_info_fields(info)))]
}

/// The whole wire text of one event: the inner message's fields, wrapped
/// as the one envelope field whose number names the event.
pub open spec fn ble_event_bytes(tag: u64, inner: Seq<GField>) -> Seq<u8> {
    encode_fields(seq![GField::Bytes(tag, encode_fields(inner))])
}

/// Wrap encoded inner fields into the envelope.
fn wrap_event(tag: u64, inner: Vec<u8>) -> (r: Vec<u8>)
    requires
        tag < 16,
    ensures
        r@ =~= encode_fields(seq![GField::Bytes(tag, inner@)]),
{
    let mut out: Vec<u8> = Vec::new();
    push_field_bytes(&mut out, tag, &inner);
    proof {
        reveal_with_fuel(encode_fields, 2);
        let x = GField::Bytes(tag, inner@);
        assert(seq![x].drop_first() =~= Seq::<GField>::empty());
        assert(seq![x][0] == x);
        assert(encode_fields(seq![x]) == encode_field(x) + encode_fields(Seq::<GField>::empty()));
        assert(encode_field(x) + Seq::<u8>::empty() =~= encode_field(x));
    }
    out
}

// ------------------------------------------------------------------
// The result sender.
// ------------------------------------------------------------------

/// Builds the events the transport reports and keeps them in order until
/// the host hands them to the supervisor's channel.
pub struct BleResultSender {
    out: Vec<Vec<u8>>,
}

impl BleResultSender {
    /// The events built so far, oldest first.
    pub closed spec fn sent(self) -> Seq<Seq<u8>> {
        self.out@.map_values(|v: Vec<u8>| v@)
    }

    /// An empty outbox.
    pub fn new() -> (r: Self)
        ensures
            r.sent() =~= Seq::<Seq<u8>>::empty(),
    {
        BleResultSender { out: Vec::new() }
    }

    /// Append one already-encoded event.
    pub fn send_ble_sys_msg(&mut self, msg: Vec<u8>)
        ensures
            final(self).sent() =~= old(self).sent().push(msg@),
    {
        self.out.push(msg);
    }

    /// Hand the pending events to the host, oldest first, leaving the
    /// outbox empty.
    pub fn take_messages(&mut self) -> (r: Vec<Vec<u8>>)
        ensures
            r@.map_values(|v: Vec<u8>| v@) == old(self).sent(),
            final(self).sent() =~= Seq::<Seq<u8>>::empty(),
    {
        let mut taken: Vec<Vec<u8>> = Vec::new();
        std::mem::swap(&mut taken, &mut self.out);
        taken
    }

    /// A start request arrived while the transport was already running:
    /// report a benign start result.
    pub fn send_result_already_running(&mut self)
        ensures
            final(self).sent() =~= old(self).sent().push(
                ble_event_bytes(5, start_result_fields(true, 0, already_running_text())),
            ),
    {
        let text = already_running_message();
        let mut inner: Vec<u8> = Vec::new();
        push_field_num(&mut inner, 1, 1);
        push_field_num(&mut inner, 2, 0);
        push_field_bytes(&mut inner, 3, &text);
        proof {
            lemma_fields3(
                GField::Num(1, 1),
                GField::Num(2, 0),
                GField::Bytes(3, text@),
            );
        }
        let msg = wrap_event(5, inner);
        self.out.push(msg);
    }

    /// A direct send arrived while the transport was idle: report a benign
    /// start result naming the situation.
    pub fn send_result_not_running(&mut self)
        ensures
            final(self).sent() =~= old(self).sent().push(
                ble_event_bytes(5, start_result_fields(true, 0, not_running_text())),
            ),
    {
        let text = not_running_message();
        let mut inner: Vec<u8> = Vec::new();
        push_field_num(&mut inner, 1, 1);
        push_field_num(&mut inner, 2, 0);
        push_field_bytes(&mut inner, 3, &text);
        proof {
            lemma_fields3(
                GField::Num(1, 1),
                GField::Num(2, 0),
                GField::Bytes(3, text@),
            );
        }
        let msg = wrap_event(5, inner);
        self.out.push(msg);
    }

    /// The transport started: report success.
    pub fn send_start_successful(&mut self)
        ensures
            final(self).sent() =~= old(self).sent().push(
                ble_event_bytes(5, start_result_fields(true, 0, Seq::<u8>::empty())),
            ),
    {
        let empty: Vec<u8> = Vec::new();
        let mut inner: Vec<u8> = Vec::new();
        push_field_num(&mut inner, 1, 1);
        push_field_num(&mut inner, 2, 0);
        push_field_bytes(&mut inner, 3, &empty);
        proof {
            lemma_fields3(
                GField::Num(1, 1),
                GField::Num(2, 0),
                GField::Bytes(3, Seq::<u8>::empty()),
            );
        }
        let msg = wrap_event(5, inner);
        self.out.push(msg);
    }

    /// A peer was discovered and read: report its identifier and signal.
    pub fn send_device_found(&mut self, qaul_id: Vec<u8>, rssi: i32)
        ensures
            final(self).sent() =~= old(self).sent().push(
                ble_event_bytes(8, device_discovered_fields(qaul_id@, rssi)),
            ),
    {
        let mut inner: Vec<u8> = Vec::new();
        push_field_bytes(&mut inner, 1, &qaul_id);
        let sv = to_sint64(rssi);
        push_field_num(&mut inner, 2, sv);
        proof {
            lemma_fields2(GField::Bytes(1, qaul_id@), GField::Num(2, sint64_of(rssi)));
        }
        let msg = wrap_event(8, inner);
        self.out.push(msg);
    }

    /// A peer fell out of range: report its identifier.
    pub fn send_device_unavailable(&mut self, qaul_id: Vec<u8>)
        ensures
            final(self).sent() =~= old(self).sent().push(
                ble_event_bytes(9, device_unavailable_fields(qaul_id@)),
            ),
    {
        let mut inner: Vec<u8> = Vec::new();
        push_field_bytes(&mut inner, 1, &qaul_id);
        proof {
            lemma_fields1(GField::Bytes(1, qaul_id@));
        }
        let msg = wrap_event(9, inner);
        self.out.push(msg);
    }

    /// A message arrived: report the sender and the payload.
    pub fn send_direct_received(&mut self, from: Vec<u8>, data: Vec<u8>)
        ensures
            final(self).sent() =~= old(self).sent().push(
                ble_event_bytes(10, direct_received_fields(from@, data@)),
            ),
    {
        let mut inner: Vec<u8> = Vec::new();
        push_field_bytes(&mut inner, 1, &from);
        push_field_bytes(&mut inner, 2, &data);
        proof {
            lemma_fields2(GField::Bytes(1, from@), GField::Bytes(2, data@));
        }
        let msg = wrap_event(10, inner);
        self.out.push(msg);
    }

    /// A direct send finished: report success for the message.
    pub fn send_direct_send_success(&mut self, id: Vec<u8>)
        ensures
            final(self).sent() =~= old(self).sent().push(
                ble_event_bytes(
                    11,
                    direct_send_result_fields(id@, true, Seq::<u8>::empty()),
                ),
            ),
    {
        let empty: Vec<u8> = Vec::new();
        let mut inner: Vec<u8> = Vec::new();
        push_field_bytes(&mut inner, 1, &id);
        push_field_num(&mut inner, 2, 1);
        push_field_bytes(&mut inner, 3, &empty);
        proof {
            lemma_fields3(
                GField::Bytes(1, id@),
                GField::Num(2, 1),
                GField::Bytes(3, Seq::<u8>::empty()),
            );
        }
        let msg = wrap_event(11, inner);
        self.out.push(msg);
    }

    /// A direct send failed: report the failure and its message.
    pub fn send_direct_send_error(&mut self, id: Vec<u8>, error_message: Vec<u8>)
        ensures
            final(self).sent() =~= old(self).sent().push(
                ble_event_bytes(11, direct_send_result_fields(id@, false, error_message@)),
            ),
    {
        let mut inner: Vec<u8> = Vec::new();
        push_field_bytes(&mut inner, 1, &id);
        push_field_num(&mut inner, 2, 0);
        push_field_bytes(&mut inner, 3, &error_message);
        proof {
            lemma_fields3(
                GField::Bytes(1, id@),
                GField::Num(2, 0),
                GField::Bytes(3, error_message@),
            );
        }
        let msg = wrap_event(11, inner);
        self.out.push(msg);
    }

    /// Stopping failed: report the failure and its message.
    pub fn send_stop_unsuccessful(&mut self, error_message: Vec<u8>)
        ensures
            final(self).sent() =~= old(self).sent().push(
                ble_event_bytes(6, stop_result_fields(false, 0, error_message@)),
            ),
    {
        let mut inner: Vec<u8> = Vec::new();
        push_field_num(&mut inner, 1, 0);
        push_field_num(&mut inner, 2, 0);
        push_field_bytes(&mut inner, 3, &error_message);
        proof {
            lemma_fields3(
                GField::Num(1, 0),
                GField::Num(2, 0),
                GField::Bytes(3, error_message@),
            );
        }
        let msg = wrap_event(6, inner);
        self.out.push(msg);
    }

    /// The transport stopped: report success.
    pub fn send_stop_successful(&mut self)
        ensures
            final(self).sent() =~= old(self).sent().push(
                ble_event_bytes(6, stop_result_fields(true, 0, Seq::<u8>::empty())),
            ),
    {
        let empty: Vec<u8> = Vec::new();
        let mut inner: Vec<u8> = Vec::new();
        push_field_num(&mut inner, 1, 1);
        push_field_num(&mut inner, 2, 0);
        push_field_bytes(&mut inner, 3, &empty);
        proof {
            lemma_fields3(
                GField::Num(1, 1),
                GField::Num(2, 0),
                GField::Bytes(3, Seq::<u8>::empty()),
            );
        }
        let msg = wrap_event(6, inner);
        self.out.push(msg);
    }

    /// The adapter was queried for an info request: report the record.
    #[verifier::rlimit(60)]
    pub fn send_info_response(&mut self, info: &BleDeviceInfo)
        ensures
            final(self).sent() =~= old(self).sent().push(
                ble_event_bytes(7, info_response_fields(*info)),
            ),
    {
        let mut dev: Vec<u8> = Vec::new();
        push_field_num(&mut dev, 1, if info.ble_support { 1 } else { 0 });
        push_field_bytes(&mut dev, 2, &info.id);
        push_field_bytes(&mut dev, 3, &info.name);
        push_field_num(&mut dev, 4, if info.bluetooth_on { 1 } else { 0 });
        push_field_num(&mut dev, 5, if info.adv_extended { 1 } else { 0 });
        push_field_num(&mut dev, 6, info.adv_extended_bytes as u64);
        push_field_num(&mut dev, 7, if info.le_2m { 1 } else { 0 });
        push_field_num(&mut dev, 8, if info.le_coded { 1 } else { 0 });
        push_field_num(&mut dev, 9, if info.le_audio { 1 } else { 0 });
        push_field_num(&mut dev, 10, if info.le_periodic_adv_support { 1 } else { 0 });
        push_field_num(&mut dev, 11, if info.le_multiple_adv_support { 1 } else { 0 });
        push_field_num(&mut dev, 12, if info.offload_filter_support { 1 } else { 0 });
        push_field_num(&mut dev, 13, if info.offload_scan_batching_support { 1 } else { 0 });
        proof {
            lemma_device_info_bytes(*info);
        }
        let mut inner: Vec<u8> = Vec::new();
        push_field_bytes(&mut inner, 1, &dev);
        proof {
            lemma_fields1(GField::Bytes(1, dev@));
        }
        let msg = wrap_event(7, inner);
        self.out.push(msg);
    }
}

proof fn lemma_fields1(a: GField)
    ensures
        encode_fields(seq![a]) =~= encode_field(a),
{
    reveal_with_fuel(encode_fields, 2);
    assert(seq![a].drop_first() =~= Seq::<GField>::empty());
    assert(seq![a][0] == a);
}

proof fn lemma_fields2(a: GField, b: GField)
    ensures
        encode_fields(seq![a, b]) =~= encode_field(a) + encode_field(b),
{
    assert(seq![a, b].drop_first() =~= seq![b]);
    assert(seq![a, b][0] == a);
    lemma_fields1(b);
}

proof fn lemma_fields3(a: GField, b: GField, c: GField)
    ensures
        encode_fields(seq![a, b, c]) =~= encode_field(a) + encode_field(b) + encode_field(c),
{
    assert(seq![a, b, c].drop_first() =~= seq![b, c]);
    assert(seq![a, b, c][0] == a);
    lemma_fields2(b, c);
}

proof fn lemma_device_info_bytes(info: BleDeviceInfo)
    ensures
        encode_fields(device_info_fields(info)) =~= encode_field(
            GField::Num(1, bool_num(info.ble_support)),
        ) + encode_field(GField::Bytes(2, info.id@)) + encode_field(GField::Bytes(3, info.name@))
            + encode_field(GField::Num(4, bool_num(info.bluetooth_on))) + encode_field(
            GField::Num(5, bool_num(info.adv_extended)),
        ) + encode_field(GField::Num(6, info.adv_extended_bytes as u64)) + encode_field(
            GField::Num(7, bool_num(info.le_2m)),
        ) + encode_field(GField::Num(8, bool_num(info.le_coded))) + encode_field(
            GField::Num(9, bool_num(info.le_audio)),
        ) + encode_field(GField::Num(10, bool_num(info.le_periodic_adv_support))) + encode_field(
            GField::Num(11, bool_num(info.le_multiple_adv_support)),
        ) + encode_field(GField::Num(12, bool_num(info.offload_filter_support))) + encode_field(
            GField::Num(13, bool_num(info.offload_scan_batching_support)),
        ),
{
    let fs = device_info_fields(info);
    assert(fs.len() == 13);
    assert(fs =~= fs.take(12).push(fs[12]));
    assert(fs.take(12) =~= fs.take(11).push(fs[11]));
    assert(fs.take(11) =~= fs.take(10).push(fs[10]));
    assert(fs.take(10) =~= fs.take(9).push(fs[9]));
    assert(fs.take(9) =~= fs.take(8).push(fs[8]));
    assert(fs.take(8) =~= fs.take(7).push(fs[7]));
    assert(fs.take(7) =~= fs.take(6).push(fs[6]));
    assert(fs.take(6) =~= fs.take(5).push(fs[5]));
    assert(fs.take(5) =~= fs.take(4).push(fs[4]));
    assert(fs.take(4) =~= fs.take(3).push(fs[3]));
    assert(fs.take(3) =~= fs.take(2).push(fs[2]));
    assert(fs.take(2) =~= fs.take(1).push(fs[1]));
    assert(fs.take(1) =~= fs.take(0).push(fs[0]));
    assert(fs.take(0) =~= Seq::<GField>::empty());
    lemma_encode_push(fs.take(0), fs[0]);
    lemma_encode_push(fs.take(1), fs[1]);
    lemma_encode_push(fs.take(2), fs[2]);
    lemma_encode_push(fs.take(3), fs[3]);
    lemma_encode_push(fs.take(4), fs[4]);
    lemma_encode_push(fs.take(5), fs[5]);
    lemma_encode_push(fs.take(6), fs[6]);
    lemma_encode_push(fs.take(7), fs[7]);
    lemma_encode_push(fs.take(8), fs[8]);
    lemma_encode_push(fs.take(9), fs[9]);
    lemma_encode_push(fs.take(10), fs[10]);
    lemma_encode_push(fs.take(11), fs[11]);
    lemma_encode_push(fs.take(12), fs[12]);
}

// ------------------------------------------------------------------
// Fixed report texts.
// ------------------------------------------------------------------

pub open spec fn already_running_text() -> Seq<u8> {
    dec_text_bytes("Received start request, but BLE service is already running!")
}

pub open spec fn not_running_text() -> Seq<u8> {
    dec_text_bytes("Received direct send request, but BLE service is not yet running!")
}

/// The bytes of a text literal.
pub open spec fn dec_text_bytes(s: &str) -> Seq<u8> {
    s.spec_bytes()
}

/// Build the already-running report text.
fn already_running_message() -> (r: Vec<u8>)
    ensures
        r@ == already_running_text(),
{
    str_to_bytes("Received start request, but BLE service is already running!")
}

/// Build the not-running report text.
fn not_running_message() -> (r: Vec<u8>)
    ensures
        r@ == not_running_text(),
{
    str_to_bytes("Received direct send request, but BLE service is not yet running!")
}

/// Copy the bytes of a text literal.
pub fn str_to_bytes(s: &str) -> (r: Vec<u8>)
    ensures
        r@ == dec_text_bytes(s),
{
    s.as_bytes_vec()
}


// ------------------------------------------------------------------
// Upstream commands.
// ------------------------------------------------------------------

/// A direct-send request from the supervisor.
pub struct BleDirectSend {
    pub message_id: Vec<u8>,
    pub receiver_id: Vec<u8>,
    pub sender_id: Vec<u8>,
    pub data: Vec<u8>,
}

/// One decoded supervisor command. A recognized envelope holding no
/// command field is `Unknown` and is ignored.
pub enum BleRpcMessage {
    InfoRequest,
    StartRequest { qaul_id: Vec<u8>, mode: Option<u64> },
    StopRequest,
    DirectSend(BleDirectSend),
    Unknown,
}

/// The command named by the envelope: the last length-delimited field
/// whose number is a command tag.
pub open spec fn last_command(fs: Seq<GField>) -> Option<(u64, Seq<u8>)>
    decreases fs.len(),
{
    if fs.len() == 0 {
        None
    } else {
        match fs.last() {
            GField::Bytes(fl, d) => if 1 <= fl <= 4 {
                Some((fl, d))
            } else {
                last_command(fs.drop_last())
            },
            GField::Num(fl, v) => last_command(fs.drop_last()),
        }
    }
}

/// A field payload, or empty where the field is absent.
pub open spec fn bytes_or_empty(o: Option<Seq<u8>>) -> Seq<u8> {
    match o {
        Some(d) => d,
        None => Seq::empty(),
    }
}

/// Find the command field, scanning from the end.
fn get_last_command(fs: &Vec<FieldVal>) -> (r: Option<(u64, Vec<u8>)>)
    ensures
        match r {
            Some(p) => last_command(fields_view(fs@)) == Some((p.0, p.1@)),
            None => last_command(fields_view(fs@)) is None,
        },
{
    let ghost gfs = fields_view(fs@);
    let mut i: usize = fs.len();
    proof {
        assert(gfs.take(i as int) =~= gfs);
    }
    while i > 0
        invariant
            i <= fs.len(),
            gfs == fields_view(fs@),
            gfs.len() == fs@.len(),
            last_command(gfs) == last_command(gfs.take(i as int)),
        decreases i,
    {
        proof {
            assert(gfs.take(i as int).last() == gfs[i - 1]);
            assert(gfs[i - 1] == crate::proto::field_view(&fs@[i - 1]));
            assert(gfs.take(i as int).drop_last() =~= gfs.take(i - 1));
        }
        match &fs[i - 1] {
            FieldVal::Bytes(fl, d) => {
                if 1 <= *fl && *fl <= 4 {
                    return Some((*fl, clone_bytes(d)));
                }
            },
            FieldVal::Num(fl, v) => {},
        }
        i = i - 1;
    }
    proof {
        assert(gfs.take(0) =~= Seq::<GField>::empty());
    }
    None
}

/// Decode one supervisor command from its wire text. `None` when the
/// envelope or a command body is not well-formed protobuf.
pub fn decode_ble_command(data: &Vec<u8>) -> (r: Option<BleRpcMessage>)
    ensures
        match parse_fields(data@) {
            None => r is None,
            Some(fs) => match last_command(fs) {
                None => r matches Some(m) && m is Unknown,
                Some(cmd) => {
                    if cmd.0 == 1 {
                        r matches Some(m) && m is InfoRequest
                    } else if cmd.0 == 3 {
                        r matches Some(m) && m is StopRequest
                    } else if cmd.0 == 2 {
                        match parse_fields(cmd.1) {
                            None => r is None,
                            Some(infs) => match r {
                                Some(m) => m matches BleRpcMessage::StartRequest { qaul_id, mode }
                                    && qaul_id@ == bytes_or_empty(last_bytes(infs, 1)) && mode
                                    == last_num(infs, 2),
                                None => false,
                            },
                        }
                    } else {
                        match parse_fields(cmd.1) {
                            None => r is None,
                            Some(infs) => match r {
                                Some(m) => m matches BleRpcMessage::DirectSend(d)
                                    && d.message_id@ == bytes_or_empty(last_bytes(infs, 1))
                                    && d.receiver_id@ == bytes_or_empty(last_bytes(infs, 2))
                                    && d.sender_id@ == bytes_or_empty(last_bytes(infs, 3))
                                    && d.data@ == bytes_or_empty(last_bytes(infs, 4)),
                                None => false,
                            },
                        }
                    }
                },
            },
        },
{
    let fs = match read_fields(data) {
        Some(fs) => fs,
        None => {
            return None;
        },
    };
    let (tag, body) = match get_last_command(&fs) {
        Some(p) => p,
        None => {
            return Some(BleRpcMessage::Unknown);
        },
    };
    if tag == 1 {
        Some(BleRpcMessage::InfoRequest)
    } else if tag == 3 {
        Some(BleRpcMessage::StopRequest)
    } else if tag == 2 {
        let infs = match read_fields(&body) {
            Some(i) => i,
            None => {
                return None;
            },
        };
        let qaul_id = match get_last_bytes(&infs, 1) {
            Some(d) => d,
            None => Vec::new(),
        };
        let mode = get_last_num(&infs, 2);
        Some(BleRpcMessage::StartRequest { qaul_id, mode })
    } else {
        let infs = match read_fields(&body) {
            Some(i) => i,
            None => {
                return None;
            },
        };
        let message_id = match get_last_bytes(&infs, 1) {
            Some(d) => d,
            None => Vec::new(),
        };
        let receiver_id = match get_last_bytes(&infs, 2) {
            Some(d) => d,
            None => Vec::new(),
        };
        let sender_id = match get_last_bytes(&infs, 3) {
            Some(d) => d,
            None => Vec::new(),
        };
        let payload = match get_last_bytes(&infs, 4) {
            Some(d) => d,
            None => Vec::new(),
        };
        Some(
            BleRpcMessage::DirectSend(
                BleDirectSend { message_id, receiver_id, sender_id, data: payload },
            ),
        )
    }
}

/// The field layout of a direct-send command, for building one.
pub open spec fn direct_send_fields(
    message_id: Seq<u8>,
    receiver_id: Seq<u8>,
    sender_id: Seq<u8>,
    data: Seq<u8>,
) -> Seq<GField> {
    seq![
        GField::Bytes(1, message_id),
        GField::Bytes(2, receiver_id),
        GField::Bytes(3, sender_id),
        GField::Bytes(4, data),
    ]
}

/// Encode a direct-send command as the supervisor would send it.
pub fn encode_direct_send(msg: &BleDirectSend) -> (r: Vec<u8>)
    ensures
        r@ =~= ble_event_bytes(
            4,
            direct_send_fields(msg.message_id@, msg.receiver_id@, msg.sender_id@, msg.data@),
        ),
{
    let mut inner: Vec<u8> = Vec::new();
    push_field_bytes(&mut inner, 1, &msg.message_id);
    push_field_bytes(&mut inner, 2, &msg.receiver_id);
    push_field_bytes(&mut inner, 3, &msg.sender_id);
    push_field_bytes(&mut inner, 4, &msg.data);
    proof {
        let a = GField::Bytes(1, msg.message_id@);
        let b = GField::Bytes(2, msg.receiver_id@);
        let c = GField::Bytes(3, msg.sender_id@);
        let d = GField::Bytes(4, msg.data@);
        assert(seq![a, b, c, d].drop_first() =~= seq![b, c, d]);
        assert(seq![a, b, c, d][0] == a);
        lemma_fields3(b, c, d);
        assert(inner@ =~= encode_fields(seq![a, b, c, d]));
    }
    wrap_event(4, inner)
}

} // verus!
