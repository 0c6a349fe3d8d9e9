//! The BLE transport core: its two top-level states and the main event
//! loop's dispatch rules.
//!
//! The transport is Idle until the start sequence registers the
//! advertisement and the GATT application; it is then Started, and a single
//! cooperative loop dispatches every event: supervisor commands, write
//! events on the message characteristic, discovery reports, reassembled
//! inbound messages and outbound send requests. The loop's decisions are
//! computed here over plain values; the host performs the BLE work each
//! decision names (connect, write, subscribe, remove) and feeds the
//! outcomes back as further events.

use vstd::prelude::*;

use crate::frame::ReassemblyMap;
use crate::frame::chunks_of;
use crate::frame::framed_hex;
use crate::frame::reasm_step;
use crate::hex::hex_decoded;
use crate::info::BleDeviceInfo;
use crate::info::u64_to_mac;
use crate::peers::BleScanDevice;
use crate::peers::PeerRegistry;
use crate::peers::out_of_range;
use crate::rpc_utils::BleDirectSend;
use crate::rpc_utils::BleResultSender;
use crate::rpc_utils::BleRpcMessage;
use crate::rpc_utils::ble_event_bytes;
use crate::rpc_utils::decode_ble_command;
use crate::rpc_utils::device_discovered_fields;
use crate::rpc_utils::device_unavailable_fields;
use crate::rpc_utils::direct_received_fields;
use crate::rpc_utils::direct_send_result_fields;
use crate::rpc_utils::info_response_fields;
use crate::rpc_utils::stop_result_fields;
use crate::rpc_utils::str_to_bytes;
use crate::rpc_utils::dec_text_bytes;
use crate::sendq::SEND_QUEUE_CAPACITY;
use crate::sendq::SendMessage;
use crate::sendq::SendQueueMap;
use crate::wire::envelope_json;
use crate::wire::parse_envelope;

verus! {

/// The 128-bit value of the primary service identifier.
pub open spec fn main_service_val() -> u128 {
    0x99e91399_80ed_4943_9bcb_39c532a76023
}

/// The 128-bit value of the read characteristic identifier.
pub open spec fn read_char_val() -> u128 {
    0x99e91401_80ed_4943_9bcb_39c532a76023
}

/// How often a failed connect is retried before the device is removed.
pub const CONNECT_RETRIES: u64 = 2;

/// The bound of the loop's own command channel.
pub const COMMAND_CHANNEL_CAPACITY: usize = 8;

/// The bound of the channel relaying reassembled inbound messages.
pub const MESSAGE_CHANNEL_CAPACITY: usize = 32;

/// The signal strength reported when the platform gives none.
pub open spec fn rssi_or_sentinel(r: Option<i32>) -> i32 {
    match r {
        Some(v) => v,
        None => 999,
    }
}

/// The transport, Idle or Started.
pub enum QaulBleService {
    Idle(IdleBleService),
    Started(StartedBleService),
}

/// The idle transport: no registrations are held.
pub struct IdleBleService {
    pub device_block_list: Vec<u64>,
}

/// The started transport: the advertisement and application registrations
/// are held, and the loop's tables live here.
pub struct StartedBleService {
    pub qaul_id: Vec<u8>,
    pub device_block_list: Vec<u64>,
    pub registry: PeerRegistry,
    pub reassembly: ReassemblyMap,
    pub send_queue: SendQueueMap,
    pub adv_registered: bool,
    pub app_registered: bool,
}

/// Why the start sequence failed.
pub enum StartFailure {
    AdapterUnavailable,
    AdvertiseRejected,
    ServeRejected,
}

/// What the host must perform after a dispatch step.
pub enum BleAction {
    /// Connect to a newly seen device, enumerate its services and read its
    /// identifier, then feed back a `DiscoveryReport` (or `ConnectFailed`
    /// once [`CONNECT_RETRIES`] retries are exhausted).
    ConnectAndEnumerate(u64),
    /// Subscribe to the notify stream of the named characteristic.
    SubscribeNotify { mac: u64, service_index: usize, char_index: usize },
    /// Write the fragments, in order, to the peer's write characteristic,
    /// connecting first if need be; feed back a `SendCompleted`.
    WriteFragments { mac: u64, message_id: Vec<u8>, fragments: Vec<Vec<u8>> },
    /// Disconnect from the peer.
    DisconnectDevice(u64),
    /// Ask the adapter to forget the device.
    RemoveDevice(u64),
    /// Accept the pending write stream and feed its reads back as
    /// `FragmentReceived` events.
    AcceptWrite(u64),
    /// Query the adapter's capabilities and feed back `DeviceInfoReady`.
    QueryDeviceInfo,
    /// Post a command back onto the loop's own command channel.
    PostCommand(BleMainLoopEvent),
}

/// A control event on a served characteristic.
pub enum CharacteristicEvent {
    Write(u64),
    Notify,
}

/// One characteristic seen during enumeration, with the value read from it
/// when it was readable.
pub struct DiscoveredCharacteristic {
    pub uuid: u128,
    pub read: bool,
    pub notify: bool,
    pub indicate: bool,
    pub value: Option<Vec<u8>>,
}

/// One service seen during enumeration.
pub struct DiscoveredService {
    pub uuid: u128,
    pub characteristics: Vec<DiscoveredCharacteristic>,
}

/// A completed enumeration of a discovered device.
pub struct DiscoveryReport {
    pub mac: u64,
    pub rssi: Option<i32>,
    pub name: Vec<u8>,
    pub services: Vec<DiscoveredService>,
}

/// One event of the main loop.
pub enum BleMainLoopEvent {
    /// Stop the loop.
    Stop,
    /// Send a message: identifier of the message, of the receiver, of the
    /// sender, and the payload.
    SendMessage((Vec<u8>, Vec<u8>, Vec<u8>, Vec<u8>)),
    /// A reassembled payload arrived from a peer.
    MessageReceived((Vec<u8>, u64)),
    /// A control event on the read characteristic; reserved.
    MainCharEvent,
    /// A control event on the write characteristic.
    MsgCharEvent(CharacteristicEvent),
    /// The adapter's discovery stream reported a device.
    DeviceDiscovered(u64),
    /// The host finished enumerating a device.
    DiscoveryReport(DiscoveryReport),
    /// Connecting to a device failed even after the retries.
    ConnectFailed(u64),
    /// One fragment arrived on an accepted write stream.
    FragmentReceived((u64, Vec<u8>)),
    /// The host finished a pending write plan.
    SendCompleted { message_id: Vec<u8>, success: bool, error_message: Vec<u8> },
    /// The host finished querying the adapter for an info request.
    DeviceInfoReady(BleDeviceInfo),
    /// A supervisor command arrived on the command channel.
    RpcEvent(Vec<u8>),
}

impl IdleBleService {
    /// Initialize a fresh transport: the host has opened the platform
    /// session, registered the pairing agent and powered the default
    /// adapter, and reports whether an adapter was had. Without one the
    /// transport cannot exist; with one it is idle, with an empty block
    /// list.
    pub fn new(adapter_ok: bool) -> (r: Result<QaulBleService, StartFailure>)
        ensures
            adapter_ok ==> (r matches Ok(q) && (q matches QaulBleService::Idle(s)
                && s.device_block_list@.len() == 0)),
            !adapter_ok ==> r == Err::<QaulBleService, StartFailure>(
                StartFailure::AdapterUnavailable,
            ),
    {
        if adapter_ok {
            Ok(QaulBleService::Idle(IdleBleService { device_block_list: Vec::new() }))
        } else {
            Err(StartFailure::AdapterUnavailable)
        }
    }

    /// The start sequence after the platform steps: the host has tried to
    /// register the advertisement and then the GATT application, and
    /// reports whether each was accepted. Failure at either step leaves
    /// the transport Idle with nothing held; success reaches Started with
    /// both registrations held, fresh tables, and this node's identifier
    /// ready for the read characteristic.
    pub fn advertise_scan_listen(self, qaul_id: Vec<u8>, advertise_ok: bool, serve_ok: bool) -> (r:
        (QaulBleService, Option<StartFailure>))
        ensures
            !advertise_ok ==> (r.0 matches QaulBleService::Idle(s) && r.1 == Some(
                StartFailure::AdvertiseRejected,
            )),
            advertise_ok && !serve_ok ==> (r.0 matches QaulBleService::Idle(s) && r.1 == Some(
                StartFailure::ServeRejected,
            )),
            advertise_ok && serve_ok ==> r.1 is None && (r.0 matches QaulBleService::Started(s) && {
                &&& s.wf()
                &&& s.qaul_id@ == qaul_id@
                &&& s.device_block_list@ == self.device_block_list@
                &&& s.adv_registered
                &&& s.app_registered
                &&& forall|m: u64| !s.registry.has_mac(m)
                &&& forall|m: u64| s.reassembly.buffer_for(m) is None
                &&& forall|m: u64| #[trigger] s.send_queue.queue_for(m).len() == 0
            }),
    {
        if !advertise_ok {
            (QaulBleService::Idle(self), Some(StartFailure::AdvertiseRejected))
        } else if !serve_ok {
            (QaulBleService::Idle(self), Some(StartFailure::ServeRejected))
        } else {
            let svc = StartedBleService {
                qaul_id,
                device_block_list: self.device_block_list,
                registry: PeerRegistry::new(),
                reassembly: ReassemblyMap::new(),
                send_queue: SendQueueMap::new(),
                adv_registered: true,
                app_registered: true,
            };
            (QaulBleService::Started(svc), None)
        }
    }
}

impl StartedBleService {
    /// The running transport's tables are well formed and both platform
    /// registrations are held.
    pub open spec fn wf(self) -> bool {
        &&& self.registry.wf()
        &&& self.reassembly.wf()
        &&& self.send_queue.wf()
        &&& self.adv_registered
        &&& self.app_registered
    }

    /// Stop the transport: the registrations are released, a successful
    /// stop result is reported, and the transport is Idle again with its
    /// block list kept.
    pub fn stop(self, sender: &mut BleResultSender) -> (r: QaulBleService)
        ensures
            final(sender).sent() =~= old(sender).sent().push(
                ble_event_bytes(6, stop_result_fields(true, 0, Seq::<u8>::empty())),
            ),
            r matches QaulBleService::Idle(s) && s.device_block_list@
                == self.device_block_list@,
    {
        sender.send_stop_successful();
        QaulBleService::Idle(IdleBleService { device_block_list: self.device_block_list })
    }

    /// Translate a supervisor direct-send request into the loop's send
    /// command, as it is posted back onto the command channel.
    pub fn direct_send(&self, direct_send_request: BleDirectSend) -> (r: BleMainLoopEvent)
        ensures
            r matches BleMainLoopEvent::SendMessage(t) && t.0@ == direct_send_request.message_id@
                && t.1@ == direct_send_request.receiver_id@ && t.2@
                == direct_send_request.sender_id@ && t.3@ == direct_send_request.data@,
    {
        BleMainLoopEvent::SendMessage(
            (
                direct_send_request.message_id,
                direct_send_request.receiver_id,
                direct_send_request.sender_id,
                direct_send_request.data,
            ),
        )
    }
}

impl QaulBleService {
    /// Stop in any state. A started transport stops as above; a stop
    /// while idle is benign and reports a successful stop without any
    /// other effect.
    pub fn stop(self, sender: &mut BleResultSender) -> (r: QaulBleService)
        ensures
            final(sender).sent() =~= old(sender).sent().push(
                ble_event_bytes(6, stop_result_fields(true, 0, Seq::<u8>::empty())),
            ),
            r is Idle,
            self is Idle ==> r == self,
    {
        match self {
            QaulBleService::Started(svc) => svc.stop(sender),
            QaulBleService::Idle(s) => {
                sender.send_stop_successful();
                QaulBleService::Idle(s)
            },
        }
    }
}


/// A characteristic whose notify stream would be subscribed. The readers
/// were never drained downstream, so the subscription is not performed.
pub open spec fn is_notify_char(c: DiscoveredCharacteristic) -> bool {
    c.notify || c.indicate
}

/// A characteristic that yields the remote identifier: readable, under the
/// read characteristic identifier, with a value read, and not taken by the
/// notify branch.
pub open spec fn is_found_char(c: DiscoveredCharacteristic) -> bool {
    &&& !is_notify_char(c)
    &&& c.read
    &&& c.uuid == read_char_val()
    &&& c.value is Some
}

/// The identifiers read from a characteristic list, in order.
pub open spec fn found_in_chars(cs: Seq<DiscoveredCharacteristic>) -> Seq<Seq<u8>>
    decreases cs.len(),
{
    if cs.len() == 0 {
        Seq::empty()
    } else {
        let rest = found_in_chars(cs.drop_first());
        if is_found_char(cs[0]) {
            seq![cs[0].value.unwrap()@] + rest
        } else {
            rest
        }
    }
}

/// The identifiers read from an enumeration: only services under the main
/// service identifier contribute.
pub open spec fn found_in_services(ss: Seq<DiscoveredService>) -> Seq<Seq<u8>>
    decreases ss.len(),
{
    if ss.len() == 0 {
        Seq::empty()
    } else {
        (if ss[0].uuid == main_service_val() {
            found_in_chars(ss[0].characteristics@)
        } else {
            Seq::empty()
        }) + found_in_services(ss.drop_first())
    }
}

/// The event reported for one identifier found with a signal strength.
pub open spec fn discovered_event(id: Seq<u8>, rssi: i32) -> Seq<u8> {
    ble_event_bytes(8, device_discovered_fields(id, rssi))
}

proof fn lemma_found_chars_take(cs: Seq<DiscoveredCharacteristic>, i: int)
    requires
        0 <= i < cs.len(),
    ensures
        found_in_chars(cs.take(i + 1)) =~= found_in_chars(cs.take(i)) + (if is_found_char(cs[i]) {
            seq![cs[i].value.unwrap()@]
        } else {
            Seq::<Seq<u8>>::empty()
        }),
    decreases i,
{
    if i == 0 {
        reveal_with_fuel(found_in_chars, 3);
        assert(cs.take(1).drop_first() =~= Seq::<DiscoveredCharacteristic>::empty());
        assert(cs.take(1)[0] == cs[0]);
        assert(cs.take(0) =~= Seq::<DiscoveredCharacteristic>::empty());
    } else {
        assert(cs.take(i + 1)[0] == cs[0]);
        assert(cs.take(i + 1).drop_first() =~= cs.drop_first().take(i));
        assert(cs.take(i)[0] == cs[0]);
        assert(cs.take(i).drop_first() =~= cs.drop_first().take(i - 1));
        lemma_found_chars_take(cs.drop_first(), i - 1);
        assert(cs.drop_first()[i - 1] == cs[i]);
    }
}

proof fn lemma_found_services_take(ss: Seq<DiscoveredService>, i: int)
    requires
        0 <= i < ss.len(),
    ensures
        found_in_services(ss.take(i + 1)) =~= found_in_services(ss.take(i)) + (if ss[i].uuid
            == main_service_val() {
            found_in_chars(ss[i].characteristics@)
        } else {
            Seq::<Seq<u8>>::empty()
        }),
    decreases i,
{
    if i == 0 {
        reveal_with_fuel(found_in_services, 3);
        assert(ss.take(1).drop_first() =~= Seq::<DiscoveredService>::empty());
        assert(ss.take(1)[0] == ss[0]);
        assert(ss.take(0) =~= Seq::<DiscoveredService>::empty());
    } else {
        assert(ss.take(i + 1)[0] == ss[0]);
        assert(ss.take(i + 1).drop_first() =~= ss.drop_first().take(i));
        assert(ss.take(i)[0] == ss[0]);
        assert(ss.take(i).drop_first() =~= ss.drop_first().take(i - 1));
        lemma_found_services_take(ss.drop_first(), i - 1);
        assert(ss.drop_first()[i - 1] == ss[i]);
    }
}

/// No service under the main identifier means nothing is found: the
/// discovery filter's scope.
pub proof fn lemma_discovery_filter_scope(ss: Seq<DiscoveredService>)
    requires
        forall|i: int| 0 <= i < ss.len() ==> (#[trigger] ss[i]).uuid != main_service_val(),
    ensures
        found_in_services(ss) =~= Seq::<Seq<u8>>::empty(),
    decreases ss.len(),
{
    if ss.len() > 0 {
        assert forall|i: int|
            0 <= i < ss.drop_first().len() implies (#[trigger] ss.drop_first()[i]).uuid
            != main_service_val() by {
            assert(ss.drop_first()[i] == ss[i + 1]);
        }
        lemma_discovery_filter_scope(ss.drop_first());
    }
}


impl StartedBleService {
    /// Handle one completed enumeration (the discovery protocol): walk the
    /// services, skip any not under the main service identifier, register
    /// every identifier read from a read characteristic (the last write
    /// winning), and report each as discovered with the device's signal
    /// strength (999 standing in when the platform gave none). The device
    /// is disconnected unconditionally afterwards; it is reconnected only
    /// on outbound demand. The result says whether the read characteristic
    /// was found; when it was not, the peer is skipped silently.
    pub fn on_device_discovered(
        &mut self,
        device: &DiscoveryReport,
        sender: &mut BleResultSender,
        now: u64,
    ) -> (r: (Vec<BleAction>, bool))
        requires
            old(self).wf(),
        ensures
            final(self).wf(),
            final(sender).sent() =~= old(sender).sent() + found_in_services(
                device.services@,
            ).map_values(
                |id: Seq<u8>| discovered_event(id, rssi_or_sentinel(device.rssi)),
            ),
            r.1 == (found_in_services(device.services@).len() > 0),
            r.0@ =~= seq![BleAction::DisconnectDevice(device.mac)],
            final(self).qaul_id == old(self).qaul_id,
            final(self).device_block_list == old(self).device_block_list,
            forall|m: u64|
                #[trigger] final(self).send_queue.queue_for(m) == old(self).send_queue.queue_for(
                    m,
                ),
            forall|m: u64|
                #[trigger] final(self).reassembly.buffer_for(m) == old(self).reassembly.buffer_for(m),
            found_in_services(device.services@).len() == 0 ==> {
                &&& forall|m: u64|
                    #[trigger] final(self).registry.has_mac(m) == old(self).registry.has_mac(m)
                &&& forall|m: u64|
                    #[trigger] final(self).registry.id_of(m) == old(self).registry.id_of(m)
                &&& forall|m: u64|
                    #[trigger] final(self).registry.last_seen(m) == old(self).registry.last_seen(
                        m,
                    )
                &&& forall|id: Seq<u8>|
                    #[trigger] final(self).registry.mac_of_id(id) == old(self).registry.mac_of_id(
                        id,
                    )
            },
            found_in_services(device.services@).len() >= 1 ==> {
                let lid = found_in_services(device.services@).last();
                &&& final(self).registry.has_mac(device.mac)
                &&& final(self).registry.id_of(device.mac) == lid
                &&& final(self).registry.last_seen(device.mac) == now
                &&& final(self).registry.mac_of_id(lid) == Some(device.mac)
            },
            found_in_services(device.services@).len() == 1 ==> {
                let lid = found_in_services(device.services@)[0];
                &&& forall|m: u64|
                    #[trigger] final(self).registry.has_mac(m) == (m == device.mac || (old(self).registry.has_mac(m) && old(self).registry.id_of(m) != lid))
                &&& forall|m: u64|
                    m != device.mac && #[trigger] final(self).registry.has_mac(m) ==> final(self).registry.id_of(m) == old(self).registry.id_of(m) && final(self).registry.last_seen(m) == old(self).registry.last_seen(m)
                &&& forall|id: Seq<u8>|
                    id != lid ==> #[trigger] final(self).registry.mac_of_id(id) == (if old(self).registry.mac_of_id(id) == Some(device.mac) {
                        None::<u64>
                    } else {
                        old(self).registry.mac_of_id(id)
                    })
            },
    {
        let rssi: i32 = match device.rssi {
            Some(v) => v,
            None => 999,
        };
        let ghost all_found = found_in_services(device.services@);
        let ghost ev_of = |id: Seq<u8>| discovered_event(id, rssi_or_sentinel(device.rssi));
        let mut found_any = false;
        let ghost mut found_count: int = 0;
        let mut si: usize = 0;
        proof {
            assert(device.services@.take(0) =~= Seq::<DiscoveredService>::empty());
            assert(found_in_services(device.services@.take(0)) =~= Seq::<Seq<u8>>::empty());
            assert(old(sender).sent() + Seq::<Seq<u8>>::empty().map_values(ev_of) =~= old(sender).sent());
        }
        while si < device.services.len()
            invariant
                si <= device.services.len(),
                rssi == rssi_or_sentinel(device.rssi),
                ev_of == (|id: Seq<u8>| discovered_event(id, rssi_or_sentinel(device.rssi))),
                self.registry.wf(),
                self.reassembly == old(self).reassembly,
                self.send_queue == old(self).send_queue,
                self.qaul_id == old(self).qaul_id,
                self.device_block_list == old(self).device_block_list,
                self.adv_registered == old(self).adv_registered,
                self.app_registered == old(self).app_registered,
                found_count == found_in_services(device.services@.take(si as int)).len(),
                found_any == (found_count > 0),
                sender.sent() =~= old(sender).sent() + found_in_services(
                    device.services@.take(si as int),
                ).map_values(ev_of),
                found_count == 0 ==> {
                    &&& forall|m: u64|
                        #[trigger] self.registry.has_mac(m) == old(self).registry.has_mac(m)
                    &&& forall|m: u64|
                        #[trigger] self.registry.id_of(m) == old(self).registry.id_of(m)
                    &&& forall|m: u64|
                        #[trigger] self.registry.last_seen(m) == old(self).registry.last_seen(m)
                    &&& forall|id: Seq<u8>|
                        #[trigger] self.registry.mac_of_id(id) == old(self).registry.mac_of_id(id)
                },
                found_count >= 1 ==> {
                    let lid = found_in_services(device.services@.take(si as int)).last();
                    &&& self.registry.has_mac(device.mac)
                    &&& self.registry.id_of(device.mac) == lid
                    &&& self.registry.last_seen(device.mac) == now
                    &&& self.registry.mac_of_id(lid) == Some(device.mac)
                },
                found_count == 1 ==> {
                    let lid = found_in_services(device.services@.take(si as int))[0];
                    &&& forall|m: u64|
                        #[trigger] self.registry.has_mac(m) == (m == device.mac || (old(self).registry.has_mac(m) && old(self).registry.id_of(m) != lid))
                    &&& forall|m: u64|
                        m != device.mac && #[trigger] self.registry.has_mac(m) ==> self.registry.id_of(
                            m,
                        ) == old(self).registry.id_of(m) && self.registry.last_seen(m) == old(self).registry.last_seen(m)
                    &&& forall|id: Seq<u8>|
                        id != lid ==> #[trigger] self.registry.mac_of_id(id) == (if old(self).registry.mac_of_id(id) == Some(device.mac) {
                            None::<u64>
                        } else {
                            old(self).registry.mac_of_id(id)
                        })
                },
            decreases device.services.len() - si,
        {
            let service = &device.services[si];
            proof {
                lemma_found_services_take(device.services@, si as int);
            }
            if service.uuid == crate::ble_uuids::main_service_uuid() {
                let ghost chars = service.characteristics@;
                let mut ci: usize = 0;
                proof {
                    assert(chars.take(0) =~= Seq::<DiscoveredCharacteristic>::empty());
                    assert(found_in_chars(chars.take(0)) =~= Seq::<Seq<u8>>::empty());
                    assert(found_in_services(device.services@.take(si as int)) + found_in_chars(
                        chars.take(0),
                    ) =~= found_in_services(device.services@.take(si as int)));
                }
                while ci < service.characteristics.len()
                    invariant
                        ci <= service.characteristics.len(),
                        rssi == rssi_or_sentinel(device.rssi),
                        ev_of == (|id: Seq<u8>| discovered_event(id, rssi_or_sentinel(device.rssi))),
                        chars == service.characteristics@,
                        service == device.services@[si as int],
                        si < device.services@.len(),
                        self.registry.wf(),
                        self.reassembly == old(self).reassembly,
                        self.send_queue == old(self).send_queue,
                        self.qaul_id == old(self).qaul_id,
                        self.device_block_list == old(self).device_block_list,
                        self.adv_registered == old(self).adv_registered,
                        self.app_registered == old(self).app_registered,
                        found_count == found_in_services(device.services@.take(si as int)).len()
                            + found_in_chars(chars.take(ci as int)).len(),
                        found_any == (found_count > 0),
                        sender.sent() =~= old(sender).sent() + (found_in_services(
                            device.services@.take(si as int),
                        ) + found_in_chars(chars.take(ci as int))).map_values(ev_of),
                        found_count == 0 ==> {
                            &&& forall|m: u64|
                                #[trigger] self.registry.has_mac(m) == old(self).registry.has_mac(
                                    m,
                                )
                            &&& forall|m: u64|
                                #[trigger] self.registry.id_of(m) == old(self).registry.id_of(m)
                            &&& forall|m: u64|
                                #[trigger] self.registry.last_seen(m) == old(self).registry.last_seen(m)
                            &&& forall|id: Seq<u8>|
                                #[trigger] self.registry.mac_of_id(id) == old(self).registry.mac_of_id(id)
                        },
                        found_count >= 1 ==> {
                            let lid = (found_in_services(device.services@.take(si as int))
                                + found_in_chars(chars.take(ci as int))).last();
                            &&& self.registry.has_mac(device.mac)
                            &&& self.registry.id_of(device.mac) == lid
                            &&& self.registry.last_seen(device.mac) == now
                            &&& self.registry.mac_of_id(lid) == Some(device.mac)
                        },
                        found_count == 1 ==> {
                            let lid = (found_in_services(device.services@.take(si as int))
                                + found_in_chars(chars.take(ci as int)))[0];
                            &&& forall|m: u64|
                                #[trigger] self.registry.has_mac(m) == (m == device.mac || (old(self).registry.has_mac(m) && old(self).registry.id_of(m) != lid))
                            &&& forall|m: u64|
                                m != device.mac && #[trigger] self.registry.has_mac(m)
                                    ==> self.registry.id_of(m) == old(self).registry.id_of(m)
                                    && self.registry.last_seen(m) == old(self).registry.last_seen(
                                    m,
                                )
                            &&& forall|id: Seq<u8>|
                                id != lid ==> #[trigger] self.registry.mac_of_id(id) == (if old(self).registry.mac_of_id(id) == Some(device.mac) {
                                    None::<u64>
                                } else {
                                    old(self).registry.mac_of_id(id)
                                })
                        },
                    decreases service.characteristics.len() - ci,
                {
                    let ch = &service.characteristics[ci];
                    proof {
                        lemma_found_chars_take(chars, ci as int);
                    }
                    if ch.notify || ch.indicate {
                        // The notify stream would be subscribed here; the
                        // readers were never drained downstream, so the
                        // subscription is left out.
                        proof {
                            assert(chars.take(ci + 1) =~= chars.take(ci as int).push(
                                chars[ci as int],
                            ));
                            assert(!is_found_char(chars[ci as int]));
                        }
                    } else if ch.read && ch.uuid == crate::ble_uuids::read_char() {
                        match &ch.value {
                            Some(remote_qaul_id) => {
                                let ghost pre = self.registry;
                                let ghost fs_pre = found_in_services(
                                    device.services@.take(si as int),
                                ) + found_in_chars(chars.take(ci as int));
                                let id_copy = crate::proto::clone_bytes(remote_qaul_id);
                                let name_copy = crate::proto::clone_bytes(&device.name);
                                let ble_device = BleScanDevice {
                                    qaul_id: id_copy,
                                    rssi,
                                    mac_address: device.mac,
                                    last_found_time: now,
                                    name: name_copy,
                                    is_connected: false,
                                };
                                self.registry.register(ble_device);
                                let id_for_event = crate::proto::clone_bytes(remote_qaul_id);
                                sender.send_device_found(id_for_event, rssi);
                                found_any = true;
                                proof {
                                    found_count = found_count + 1;
                                    assert(is_found_char(chars[ci as int]));
                                    let lid = chars[ci as int].value.unwrap()@;
                                    let fsv = found_in_services(device.services@.take(si as int));
                                    let before = fsv + found_in_chars(chars.take(ci as int));
                                    assert(found_in_chars(chars.take(ci + 1)) =~= found_in_chars(
                                        chars.take(ci as int),
                                    ) + seq![lid]);
                                    assert(fsv + found_in_chars(chars.take(ci + 1)) =~= before.push(
                                        lid,
                                    ));
                                    assert((before.push(lid)).map_values(ev_of) =~= before.map_values(
                                        ev_of,
                                    ).push(ev_of(lid)));
                                    assert(ev_of(lid) == discovered_event(
                                        lid,
                                        rssi_or_sentinel(device.rssi),
                                    ));
                                    assert((fsv + found_in_chars(chars.take(ci + 1))).last()
                                        == lid);
                                    if found_count == 1 {
                                        assert(before.len() == 0);
                                        assert((fsv + found_in_chars(chars.take(ci + 1)))[0]
                                            == lid);
                                    }
                                }
                            },
                            None => {
                                proof {
                                    assert(chars.take(ci + 1) =~= chars.take(ci as int).push(
                                        chars[ci as int],
                                    ));
                                    assert(!is_found_char(chars[ci as int]));
                                }
                            },
                        }
                    } else {
                        proof {
                            assert(chars.take(ci + 1) =~= chars.take(ci as int).push(
                                chars[ci as int],
                            ));
                            assert(!is_found_char(chars[ci as int]));
                        }
                    }
                    ci = ci + 1;
                }
                proof {
                    assert(chars.take(chars.len() as int) =~= chars);
                    assert(device.services@.take(si + 1) =~= device.services@.take(
                        si as int,
                    ).push(device.services@[si as int]));
                    lemma_found_services_take(device.services@, si as int);
                }
            } else {
                proof {
                    assert(found_in_services(device.services@.take(si + 1)) =~= found_in_services(
                        device.services@.take(si as int),
                    ));
                }
            }
            si = si + 1;
        }
        proof {
            assert(device.services@.take(device.services@.len() as int) =~= device.services@);
        }
        let mut actions: Vec<BleAction> = Vec::new();
        actions.push(BleAction::DisconnectDevice(device.mac));
        (actions, found_any)
    }
}


/// The queued form of a send request.
pub open spec fn queued_msg(m: SendMessage) -> (Seq<u8>, Seq<u8>, Seq<u8>) {
    (m.message_id@, m.sender_id@, m.data@)
}

/// The fragments written for one queued message: its payload framed and
/// cut.
pub open spec fn fragments_of(sender_id: Seq<u8>, data: Seq<u8>) -> Seq<Seq<u8>> {
    chunks_of(framed_hex(envelope_json(Some(sender_id), Some(data))))
}

/// The write plan produced for a head message.
pub open spec fn is_write_plan(a: BleAction, mac: u64, mid: Seq<u8>, sid: Seq<u8>, d: Seq<u8>) -> bool {
    match a {
        BleAction::WriteFragments { mac: am, message_id: amid, fragments: fr } => {
            &&& am == mac
            &&& amid@ == mid
            &&& fr@.len() == fragments_of(sid, d).len()
            &&& forall|i: int| 0 <= i < fr@.len() ==> #[trigger] fr@[i]@ == fragments_of(sid, d)[i]
        },
        _ => false,
    }
}

/// The outcome of one send dispatch (the outbound path): resolution,
/// queueing under the bounded policy, and the write plan for the drained
/// head.
pub open spec fn send_case(
    pre: StartedBleService,
    post: StartedBleService,
    sent0: Seq<Seq<u8>>,
    sent1: Seq<Seq<u8>>,
    acts: Seq<BleAction>,
    mid: Seq<u8>,
    rid: Seq<u8>,
    sid: Seq<u8>,
    d: Seq<u8>,
) -> bool {
    &&& post.qaul_id == pre.qaul_id
    &&& post.device_block_list == pre.device_block_list
    &&& post.registry == pre.registry
    &&& post.reassembly == pre.reassembly
    &&& post.adv_registered == pre.adv_registered
    &&& post.app_registered == pre.app_registered
    &&& match pre.registry.mac_of_id(rid) {
        None => {
            &&& post.send_queue == pre.send_queue
            &&& sent1 =~= sent0.push(
                ble_event_bytes(11, direct_send_result_fields(mid, false, not_find_text())),
            )
            &&& acts =~= Seq::<BleAction>::empty()
        },
        Some(mac) => {
            let q0 = pre.send_queue.queue_for(mac);
            &&& (forall|k: u64|
                k != mac ==> #[trigger] post.send_queue.queue_for(k)
                    == pre.send_queue.queue_for(k))
            &&& if q0.len() >= SEND_QUEUE_CAPACITY as int {
                &&& post.send_queue.queue_for(mac).len() == 0
                &&& sent1 =~= sent0.push(
                    ble_event_bytes(
                        11,
                        direct_send_result_fields(mid, false, no_message_text()),
                    ),
                )
                &&& acts =~= Seq::<BleAction>::empty()
            } else {
                let head: (Seq<u8>, Seq<u8>, Seq<u8>) = if q0.len() > 0 {
                    queued_msg(q0[0])
                } else {
                    (mid, sid, d)
                };
                &&& sent1 =~= sent0
                &&& acts.len() == 2
                &&& is_write_plan(acts[0], mac, head.0, head.1, head.2)
                &&& acts[1] == BleAction::DisconnectDevice(mac)
                &&& post.send_queue.queue_for(mac).len() == q0.len()
                &&& (q0.len() > 0 ==> {
                    &&& (forall|i: int|
                        0 <= i < q0.len() - 1 ==> #[trigger] post.send_queue.queue_for(mac)[i]
                            == q0[i + 1])
                    &&& queued_msg(post.send_queue.queue_for(mac).last()) == (mid, sid, d)
                })
            }
        },
    }
}

/// The text reported when the receiver's identifier resolves to no device.
pub open spec fn not_find_text() -> Seq<u8> {
    dec_text_bytes("Could not find a device address for the given qaul ID!")
}

/// The text reported when the queue held nothing to drain after the
/// overflow policy cleared it.
pub open spec fn no_message_text() -> Seq<u8> {
    dec_text_bytes("Message ID not found")
}

/// The sender an inbound payload is attributed to: the peer's registered
/// identifier, or the raw address octets when the address is unknown.
pub open spec fn from_of(r: PeerRegistry, mac: u64) -> Seq<u8> {
    if r.has_mac(mac) {
        r.id_of(mac)
    } else {
        crate::info::mac_octets((mac % 0x1000000000000) as u64)
    }
}

impl StartedBleService {
    /// The outbound path: resolve the receiver, queue the message under
    /// the bounded policy, and drain the queue head into a write plan. An
    /// unresolvable receiver or an emptied queue reports a failed send
    /// result at once; otherwise the host writes the fragments and
    /// reports the outcome as a `SendCompleted` event.
    pub fn send_direct_message(
        &mut self,
        message_id: Vec<u8>,
        receiver_id: Vec<u8>,
        sender_id: Vec<u8>,
        data: Vec<u8>,
        sender: &mut BleResultSender,
    ) -> (r: Vec<BleAction>)
        requires
            old(self).wf(),
        ensures
            final(self).wf(),
            send_case(
                *old(self),
                *final(self),
                old(sender).sent(),
                final(sender).sent(),
                r@,
                message_id@,
                receiver_id@,
                sender_id@,
                data@,
            ),
    {
        let mac = match self.registry.lookup_mac(&receiver_id) {
            Some(m) => m,
            None => {
                let text = str_to_bytes(
                    "Could not find a device address for the given qaul ID!",
                );
                sender.send_direct_send_error(message_id, text);
                return Vec::new();
            },
        };
        let mid_copy = crate::proto::clone_bytes(&message_id);
        let msg = SendMessage { message_id, sender_id, data };
        let ghost q0 = self.send_queue.queue_for(mac);
        let ghost msg_snapshot = msg;
        self.send_queue.enqueue(mac, msg);
        match self.send_queue.pop_head(mac) {
            None => {
                proof {
                    if q0.len() < SEND_QUEUE_CAPACITY as int {
                        assert(q0.push(msg_snapshot).len() > 0);
                    }
                }
                let text = str_to_bytes("Message ID not found");
                sender.send_direct_send_error(mid_copy, text);
                Vec::new()
            },
            Some(head) => {
                proof {
                    assert(q0.len() < SEND_QUEUE_CAPACITY as int);
                    let q1 = q0.push(msg_snapshot);
                    if q0.len() > 0 {
                        assert(q1[0] == q0[0]);
                        assert(q1.drop_first().len() == q0.len());
                        assert(q1.drop_first().last() == msg_snapshot);
                        assert forall|i: int| 0 <= i < q0.len() - 1 implies #[trigger] q1.drop_first()[i] == q0[i + 1] by {}
                    } else {
                        assert(q1[0] == msg_snapshot);
                    }
                }
                let SendMessage { message_id: hmid, sender_id: hsid, data: hd } = head;
                let frame = crate::frame::frame_payload(&Some(hsid), &Some(hd));
                let fragments = crate::frame::fragment_hex(&frame);
                let mut actions: Vec<BleAction> = Vec::new();
                actions.push(
                    BleAction::WriteFragments { mac, message_id: hmid, fragments },
                );
                actions.push(BleAction::DisconnectDevice(mac));
                actions
            },
        }
    }
}


/// The outcome of one discovery-stream event: a blocked address is
/// ignored, a known peer only refreshes its last-seen time, and a new
/// address is connected and enumerated.
pub open spec fn device_added_case(
    pre: StartedBleService,
    post: StartedBleService,
    acts: Seq<BleAction>,
    mac: u64,
    now: u64,
) -> bool {
    &&& post.qaul_id == pre.qaul_id
    &&& post.device_block_list == pre.device_block_list
    &&& post.reassembly == pre.reassembly
    &&& post.send_queue == pre.send_queue
    &&& post.adv_registered == pre.adv_registered
    &&& post.app_registered == pre.app_registered
    &&& (forall|k: u64| #[trigger] post.registry.has_mac(k) == pre.registry.has_mac(k))
    &&& (forall|k: u64| #[trigger] post.registry.id_of(k) == pre.registry.id_of(k))
    &&& (forall|id: Seq<u8>| #[trigger] post.registry.mac_of_id(id) == pre.registry.mac_of_id(id))
    &&& if pre.device_block_list@.contains(mac) {
        &&& post.registry == pre.registry
        &&& acts =~= Seq::<BleAction>::empty()
    } else if pre.registry.has_mac(mac) {
        &&& post.registry.last_seen(mac) == now
        &&& (forall|k: u64| k != mac ==> #[trigger] post.registry.last_seen(k) == pre.registry.last_seen(k))
        &&& acts =~= Seq::<BleAction>::empty()
    } else {
        &&& post.registry == pre.registry
        &&& acts =~= seq![BleAction::ConnectAndEnumerate(mac)]
    }
}

/// The outcome of one inbound payload: a received message is attributed
/// and reported upstream.
pub open spec fn message_received_case(
    pre: StartedBleService,
    sent0: Seq<Seq<u8>>,
    sent1: Seq<Seq<u8>>,
    acts: Seq<BleAction>,
    data: Seq<u8>,
    mac: u64,
) -> bool {
    &&& sent1 =~= sent0.push(
        ble_event_bytes(10, direct_received_fields(from_of(pre.registry, mac), data)),
    )
    &&& acts =~= Seq::<BleAction>::empty()
}

/// The outcome of one fragment: the sender's buffer takes the reassembly
/// step; a completed, well-formed payload whose envelope carries a message
/// body is reported as received.
pub open spec fn fragment_case(
    pre: StartedBleService,
    post: StartedBleService,
    sent0: Seq<Seq<u8>>,
    sent1: Seq<Seq<u8>>,
    acts: Seq<BleAction>,
    mac: u64,
    frag: Seq<u8>,
) -> bool {
    let step = reasm_step(pre.reassembly.buffer_for(mac), frag);
    &&& post.registry == pre.registry
    &&& post.send_queue == pre.send_queue
    &&& post.qaul_id == pre.qaul_id
    &&& post.device_block_list == pre.device_block_list
    &&& post.adv_registered == pre.adv_registered
    &&& post.app_registered == pre.app_registered
    &&& post.reassembly.buffer_for(mac) == step.0
    &&& (forall|k: u64| k != mac ==> #[trigger] post.reassembly.buffer_for(k) == pre.reassembly.buffer_for(k))
    &&& acts =~= Seq::<BleAction>::empty()
    &&& match step.1 {
        None => sent1 =~= sent0,
        Some(inner) => match hex_decoded(inner) {
            None => sent1 =~= sent0,
            Some(bs) => match parse_envelope(bs) {
                None => sent1 =~= sent0,
                Some(fields) => match fields.1 {
                    None => sent1 =~= sent0,
                    Some(body) => sent1 =~= sent0.push(
                        ble_event_bytes(
                            10,
                            direct_received_fields(from_of(pre.registry, mac), body),
                        ),
                    ),
                },
            },
        },
    }
}

/// The outcome of one supervisor command.
pub open spec fn rpc_case(
    pre: StartedBleService,
    acts: Seq<BleAction>,
    stop: bool,
    data: Seq<u8>,
) -> bool {
    match crate::proto::parse_fields(data) {
        None => acts =~= Seq::<BleAction>::empty() && !stop,
        Some(fs) => match crate::rpc_utils::last_command(fs) {
            None => acts =~= Seq::<BleAction>::empty() && !stop,
            Some(cmd) => {
                if cmd.0 == 1 {
                    // An info request: the adapter is queried.
                    &&& acts =~= seq![BleAction::QueryDeviceInfo]
                    &&& !stop
                } else if cmd.0 == 2 {
                    // A start request while running is noted and dropped.
                    &&& acts =~= Seq::<BleAction>::empty()
                    &&& !stop
                } else if cmd.0 == 3 {
                    // A stop request reaches the loop like the stop command.
                    &&& acts =~= Seq::<BleAction>::empty()
                    &&& stop
                } else {
                    // A direct send is posted back onto the command channel
                    // so the send path runs in order on the loop.
                    match crate::proto::parse_fields(cmd.1) {
                        None => acts =~= Seq::<BleAction>::empty() && !stop,
                        Some(infs) => {
                            &&& !stop
                            &&& acts.len() == 1
                            &&& match acts[0] {
                                BleAction::PostCommand(ev) => match ev {
                                    BleMainLoopEvent::SendMessage(t) => {
                                        &&& t.0@ == crate::rpc_utils::bytes_or_empty(
                                            crate::proto::last_bytes(infs, 1),
                                        )
                                        &&& t.1@ == crate::rpc_utils::bytes_or_empty(
                                            crate::proto::last_bytes(infs, 2),
                                        )
                                        &&& t.2@ == crate::rpc_utils::bytes_or_empty(
                                            crate::proto::last_bytes(infs, 3),
                                        )
                                        &&& t.3@ == crate::rpc_utils::bytes_or_empty(
                                            crate::proto::last_bytes(infs, 4),
                                        )
                                    },
                                    _ => false,
                                },
                                _ => false,
                            }
                        },
                    }
                }
            },
        },
    }
}


/// The outcome of one out-of-range sweep: every stale peer is removed and
/// reported exactly once, with a remove action for the adapter.
pub open spec fn sweep_case(
    pre: StartedBleService,
    post: StartedBleService,
    sent0: Seq<Seq<u8>>,
    sent1: Seq<Seq<u8>>,
    acts: Seq<BleAction>,
    now: u64,
    threshold: u64,
) -> bool {
    &&& post.qaul_id == pre.qaul_id
    &&& post.device_block_list == pre.device_block_list
    &&& post.reassembly == pre.reassembly
    &&& post.send_queue == pre.send_queue
    &&& (forall|m: u64|
        #[trigger] post.registry.has_mac(m) == (pre.registry.has_mac(m) && !out_of_range(
            pre.registry.last_seen(m),
            now,
            threshold,
        )))
    &&& (forall|m: u64|
        #[trigger] post.registry.has_mac(m) ==> post.registry.id_of(m) == pre.registry.id_of(m)
            && post.registry.last_seen(m) == pre.registry.last_seen(m))
    &&& sent1.len() == sent0.len() + acts.len()
    &&& (forall|j: int|
        0 <= j < acts.len() ==> (#[trigger] acts[j] matches BleAction::RemoveDevice(m)
            && pre.registry.has_mac(m) && out_of_range(pre.registry.last_seen(m), now, threshold)
            && sent1[sent0.len() + j] =~= ble_event_bytes(
            9,
            device_unavailable_fields(pre.registry.id_of(m)),
        )))
    &&& (forall|j: int, k: int|
        0 <= j < k < acts.len() ==> ((#[trigger] acts[j], #[trigger] acts[k]) matches (
        BleAction::RemoveDevice(a),
        BleAction::RemoveDevice(b),
        ) && a != b))
    &&& (forall|m: u64|
        pre.registry.has_mac(m) && out_of_range(pre.registry.last_seen(m), now, threshold)
            ==> exists|j: int|
            0 <= j < acts.len() && #[trigger] acts[j] == BleAction::RemoveDevice(m))
    &&& (forall|j: int| 0 <= j < sent0.len() ==> #[trigger] sent1[j] == sent0[j])
}

impl StartedBleService {
    /// Attribute and report one reassembled inbound payload.
    #[verifier::rlimit(60)]
    pub fn report_received(&self, data: Vec<u8>, mac: u64, sender: &mut BleResultSender)
        ensures
            message_received_case(
                *self,
                old(sender).sent(),
                final(sender).sent(),
                Seq::<BleAction>::empty(),
                data@,
                mac,
            ),
    {
        let from = match self.registry.lookup_id(mac) {
            Some(id) => id,
            None => u64_to_mac(mac % 0x1000000000000),
        };
        sender.send_direct_received(from, data);
    }

    /// Handle one discovery-stream event.
    pub fn on_device_added(&mut self, mac: u64, now: u64) -> (r: Vec<BleAction>)
        requires
            old(self).wf(),
        ensures
            final(self).wf(),
            device_added_case(*old(self), *final(self), r@, mac, now),
    {
        let mut blocked = false;
        let n = self.device_block_list.len();
        let mut i: usize = 0;
        while i < n
            invariant_except_break
                i <= n,
                n == self.device_block_list@.len(),
                !blocked,
                forall|q: int| 0 <= q < i ==> self.device_block_list@[q] != mac,
            ensures
                blocked == self.device_block_list@.contains(mac),
            decreases n - i,
        {
            if self.device_block_list[i] == mac {
                blocked = true;
                proof {
                    assert(self.device_block_list@[i as int] == mac);
                }
                break;
            }
            i = i + 1;
        }
        if blocked {
            Vec::new()
        } else {
            let known = self.registry.refresh(mac, now);
            if known {
                Vec::new()
            } else {
                let mut acts: Vec<BleAction> = Vec::new();
                acts.push(BleAction::ConnectAndEnumerate(mac));
                acts
            }
        }
    }

    /// Take one fragment of an accepted write stream through reassembly
    /// and report a completed message.
    #[verifier::rlimit(60)]
    pub fn spawn_msg_listener_step(
        &mut self,
        mac: u64,
        frag: &Vec<u8>,
        sender: &mut BleResultSender,
    )
        requires
            old(self).wf(),
        ensures
            final(self).wf(),
            fragment_case(
                *old(self),
                *final(self),
                old(sender).sent(),
                final(sender).sent(),
                Seq::<BleAction>::empty(),
                mac,
                frag@,
            ),
    {
        match self.reassembly.on_fragment(mac, frag) {
            None => {},
            Some(inner) => {
                match crate::frame::decode_delivery(&inner) {
                    None => {},
                    Some(fields) => {
                        match fields.1 {
                            None => {},
                            Some(body) => {
                                let from = match self.registry.lookup_id(mac) {
                                    Some(id) => id,
                                    None => u64_to_mac(mac % 0x1000000000000),
                                };
                                sender.send_direct_received(from, body);
                            },
                        }
                    },
                }
            },
        }
    }

    /// Decode and dispatch one supervisor command.
    pub fn on_rpc_event(&mut self, data: &Vec<u8>) -> (r: (Vec<BleAction>, bool))
        requires
            old(self).wf(),
        ensures
            final(self).wf(),
            *final(self) == *old(self),
            rpc_case(*old(self), r.0@, r.1, data@),
    {
        match decode_ble_command(data) {
            None => (Vec::new(), false),
            Some(BleRpcMessage::Unknown) => (Vec::new(), false),
            Some(BleRpcMessage::InfoRequest) => {
                let mut acts: Vec<BleAction> = Vec::new();
                acts.push(BleAction::QueryDeviceInfo);
                (acts, false)
            },
            Some(BleRpcMessage::StartRequest { qaul_id: _q, mode: _m }) => {
                // Already running: the request is noted and dropped.
                (Vec::new(), false)
            },
            Some(BleRpcMessage::StopRequest) => (Vec::new(), true),
            Some(BleRpcMessage::DirectSend(req)) => {
                let ev = self.direct_send(req);
                let mut acts: Vec<BleAction> = Vec::new();
                acts.push(BleAction::PostCommand(ev));
                (acts, false)
            },
        }
    }

    /// Dispatch one event of the main loop. The returned actions are
    /// what the host must perform, in order; the flag asks the host to
    /// stop the loop and call [`StartedBleService::stop`].
    #[verifier::rlimit(100)]
    #[verifier::spinoff_prover]
    pub fn handle_event(
        &mut self,
        event: BleMainLoopEvent,
        now: u64,
        sender: &mut BleResultSender,
    ) -> (r: (Vec<BleAction>, bool))
        requires
            old(self).wf(),
        ensures
            final(self).wf(),
            match event {
                BleMainLoopEvent::Stop => {
                    &&& *final(self) == *old(self)
                    &&& final(sender).sent() =~= old(sender).sent()
                    &&& r.0@ =~= Seq::<BleAction>::empty()
                    &&& r.1
                },
                BleMainLoopEvent::SendMessage(t) => {
                    &&& send_case(
                        *old(self),
                        *final(self),
                        old(sender).sent(),
                        final(sender).sent(),
                        r.0@,
                        t.0@,
                        t.1@,
                        t.2@,
                        t.3@,
                    )
                    &&& !r.1
                },
                BleMainLoopEvent::MessageReceived(e) => {
                    &&& *final(self) == *old(self)
                    &&& message_received_case(
                        *old(self),
                        old(sender).sent(),
                        final(sender).sent(),
                        r.0@,
                        e.0@,
                        e.1,
                    )
                    &&& !r.1
                },
                BleMainLoopEvent::MainCharEvent => {
                    &&& *final(self) == *old(self)
                    &&& final(sender).sent() =~= old(sender).sent()
                    &&& r.0@ =~= Seq::<BleAction>::empty()
                    &&& !r.1
                },
                BleMainLoopEvent::MsgCharEvent(ce) => {
                    &&& *final(self) == *old(self)
                    &&& final(sender).sent() =~= old(sender).sent()
                    &&& (match ce {
                        CharacteristicEvent::Write(mac) => r.0@ =~= seq![
                            BleAction::AcceptWrite(mac),
                        ],
                        CharacteristicEvent::Notify => r.0@ =~= Seq::<BleAction>::empty(),
                    })
                    &&& !r.1
                },
                BleMainLoopEvent::DeviceDiscovered(mac) => {
                    &&& final(sender).sent() =~= old(sender).sent()
                    &&& device_added_case(*old(self), *final(self), r.0@, mac, now)
                    &&& !r.1
                },
                BleMainLoopEvent::DiscoveryReport(report) => {
                    &&& final(sender).sent() =~= old(sender).sent() + found_in_services(
                        report.services@,
                    ).map_values(
                        |id: Seq<u8>| discovered_event(id, rssi_or_sentinel(report.rssi)),
                    )
                    &&& r.0@ =~= seq![BleAction::DisconnectDevice(report.mac)]
                    &&& !r.1
                    &&& (found_in_services(report.services@).len() >= 1 ==> {
                        let lid = found_in_services(report.services@).last();
                        &&& final(self).registry.has_mac(report.mac)
                        &&& final(self).registry.id_of(report.mac) == lid
                        &&& final(self).registry.last_seen(report.mac) == now
                        &&& final(self).registry.mac_of_id(lid) == Some(report.mac)
                    })
                    &&& (found_in_services(report.services@).len() == 0 ==> {
                        &&& (forall|m: u64|
                            #[trigger] final(self).registry.has_mac(m) == old(self).registry.has_mac(m))
                        &&& (forall|id: Seq<u8>|
                            #[trigger] final(self).registry.mac_of_id(id) == old(self).registry.mac_of_id(id))
                    })
                },
                BleMainLoopEvent::ConnectFailed(mac) => {
                    &&& *final(self) == *old(self)
                    &&& final(sender).sent() =~= old(sender).sent()
                    &&& r.0@ =~= seq![BleAction::RemoveDevice(mac)]
                    &&& !r.1
                },
                BleMainLoopEvent::FragmentReceived(e) => {
                    &&& fragment_case(
                        *old(self),
                        *final(self),
                        old(sender).sent(),
                        final(sender).sent(),
                        r.0@,
                        e.0,
                        e.1@,
                    )
                    &&& !r.1
                },
                BleMainLoopEvent::SendCompleted { message_id, success, error_message } => {
                    &&& *final(self) == *old(self)
                    &&& (if success {
                        final(sender).sent() =~= old(sender).sent().push(
                            ble_event_bytes(
                                11,
                                direct_send_result_fields(
                                    message_id@,
                                    true,
                                    Seq::<u8>::empty(),
                                ),
                            ),
                        )
                    } else {
                        final(sender).sent() =~= old(sender).sent().push(
                            ble_event_bytes(
                                11,
                                direct_send_result_fields(message_id@, false, error_message@),
                            ),
                        )
                    })
                    &&& r.0@ =~= Seq::<BleAction>::empty()
                    &&& !r.1
                },
                BleMainLoopEvent::DeviceInfoReady(info) => {
                    &&& *final(self) == *old(self)
                    &&& final(sender).sent() =~= old(sender).sent().push(
                        ble_event_bytes(7, info_response_fields(info)),
                    )
                    &&& r.0@ =~= Seq::<BleAction>::empty()
                    &&& !r.1
                },
                BleMainLoopEvent::RpcEvent(data) => {
                    &&& *final(self) == *old(self)
                    &&& final(sender).sent() =~= old(sender).sent()
                    &&& rpc_case(*old(self), r.0@, r.1, data@)
                },
            },
    {
        match event {
            BleMainLoopEvent::Stop => (Vec::new(), true),
            BleMainLoopEvent::SendMessage(t) => {
                let (message_id, receiver_id, sender_id, data) = t;
                let acts = self.send_direct_message(
                    message_id,
                    receiver_id,
                    sender_id,
                    data,
                    sender,
                );
                (acts, false)
            },
            BleMainLoopEvent::MessageReceived(e) => {
                let (data, mac) = e;
                self.report_received(data, mac, sender);
                (Vec::new(), false)
            },
            BleMainLoopEvent::MainCharEvent => (Vec::new(), false),
            BleMainLoopEvent::MsgCharEvent(ce) => {
                match ce {
                    CharacteristicEvent::Write(mac) => {
                        let mut acts: Vec<BleAction> = Vec::new();
                        acts.push(BleAction::AcceptWrite(mac));
                        (acts, false)
                    },
                    CharacteristicEvent::Notify => (Vec::new(), false),
                }
            },
            BleMainLoopEvent::DeviceDiscovered(mac) => {
                let acts = self.on_device_added(mac, now);
                (acts, false)
            },
            BleMainLoopEvent::DiscoveryReport(report) => {
                let (acts, _found) = self.on_device_discovered(&report, sender, now);
                (acts, false)
            },
            BleMainLoopEvent::ConnectFailed(mac) => {
                let mut acts: Vec<BleAction> = Vec::new();
                acts.push(BleAction::RemoveDevice(mac));
                (acts, false)
            },
            BleMainLoopEvent::FragmentReceived(e) => {
                let (mac, frag) = e;
                self.spawn_msg_listener_step(mac, &frag, sender);
                (Vec::new(), false)
            },
            BleMainLoopEvent::SendCompleted { message_id, success, error_message } => {
                if success {
                    sender.send_direct_send_success(message_id);
                } else {
                    sender.send_direct_send_error(message_id, error_message);
                }
                (Vec::new(), false)
            },
            BleMainLoopEvent::DeviceInfoReady(info) => {
                sender.send_info_response(&info);
                (Vec::new(), false)
            },
            BleMainLoopEvent::RpcEvent(data) => self.on_rpc_event(&data),
        }
    }

    /// The out-of-range sweep: every peer whose last-seen time fell behind
    /// the threshold is reported unavailable exactly once, removed from
    /// the registry, and forgotten by the adapter.
    pub fn out_of_range_checker(
        &mut self,
        now: u64,
        threshold: u64,
        sender: &mut BleResultSender,
    ) -> (r: Vec<BleAction>)
        requires
            old(self).wf(),
        ensures
            final(self).wf(),
            sweep_case(
                *old(self),
                *final(self),
                old(sender).sent(),
                final(sender).sent(),
                r@,
                now,
                threshold,
            ),
    {
        let evicted = self.registry.sweep(now, threshold);
        let mut acts: Vec<BleAction> = Vec::new();
        let ghost sent0 = sender.sent();
        let ghost ev0 = evicted@;
        let mut i: usize = 0;
        while i < evicted.len()
            invariant
                i <= evicted.len(),
                evicted@ == ev0,
                acts@.len() == i,
                sender.sent().len() == sent0.len() + i,
                forall|j: int| 0 <= j < sent0.len() ==> #[trigger] sender.sent()[j] == sent0[j],
                forall|j: int|
                    0 <= j < i ==> #[trigger] acts@[j] == BleAction::RemoveDevice(ev0[j].1)
                        && sender.sent()[sent0.len() + j] =~= ble_event_bytes(
                        9,
                        device_unavailable_fields(ev0[j].0@),
                    ),
            decreases evicted.len() - i,
        {
            let id = crate::proto::clone_bytes(&evicted[i].0);
            let mac = evicted[i].1;
            sender.send_device_unavailable(id);
            acts.push(BleAction::RemoveDevice(mac));
            i = i + 1;
        }
        proof {
            assert forall|j: int|
                0 <= j < acts@.len() implies (#[trigger] acts@[j] matches BleAction::RemoveDevice(
                m,
            ) && old(self).registry.has_mac(m) && out_of_range(
                old(self).registry.last_seen(m),
                now,
                threshold,
            ) && sender.sent()[sent0.len() + j] =~= ble_event_bytes(
                9,
                device_unavailable_fields(old(self).registry.id_of(m)),
            )) by {
                assert(acts@[j] == BleAction::RemoveDevice(ev0[j].1));
                assert(ev0[j].0@ == old(self).registry.id_of(ev0[j].1));
            }
            assert forall|m: u64|
                old(self).registry.has_mac(m) && out_of_range(
                    old(self).registry.last_seen(m),
                    now,
                    threshold,
                ) implies exists|j: int|
                0 <= j < acts@.len() && #[trigger] acts@[j] == BleAction::RemoveDevice(m) by {
                let j = choose|j: int| 0 <= j < ev0.len() && #[trigger] ev0[j].1 == m;
                assert(acts@[j] == BleAction::RemoveDevice(m));
            }
        }
        acts
    }
}


// ------------------------------------------------------------------
// Laws of the dispatch rules.
// ------------------------------------------------------------------

/// A device seen again under an address that is already registered only
/// refreshes its last-seen time: no connection is opened, so no further
/// discovery report and no second discovered event can arise for it. With
/// the discovery handler registering the address on its first report, one
/// peer yields exactly one discovered event.
pub proof fn lemma_identifier_uniqueness(
    pre: StartedBleService,
    post: StartedBleService,
    acts: Seq<BleAction>,
    mac: u64,
    now: u64,
)
    requires
        pre.registry.has_mac(mac),
        device_added_case(pre, post, acts, mac, now),
        !pre.device_block_list@.contains(mac),
    ensures
        acts =~= Seq::<BleAction>::empty(),
        post.registry.has_mac(mac),
{
}

/// Send ordering per peer: two send dispatches to the same receiver, the
/// second following the first, each produce the write plan of their own
/// message, in submission order. The loop performs one event's actions
/// before taking the next event, so the first message's fragments are all
/// written before the second message's first fragment.
pub proof fn lemma_send_ordering(
    s0: StartedBleService,
    s1: StartedBleService,
    s2: StartedBleService,
    sent0: Seq<Seq<u8>>,
    sent1: Seq<Seq<u8>>,
    sent2: Seq<Seq<u8>>,
    acts_a: Seq<BleAction>,
    acts_b: Seq<BleAction>,
    rid: Seq<u8>,
    mac: u64,
    mid_a: Seq<u8>,
    sid_a: Seq<u8>,
    d_a: Seq<u8>,
    mid_b: Seq<u8>,
    sid_b: Seq<u8>,
    d_b: Seq<u8>,
)
    requires
        s0.registry.mac_of_id(rid) == Some(mac),
        s0.send_queue.queue_for(mac).len() == 0,
        send_case(s0, s1, sent0, sent1, acts_a, mid_a, rid, sid_a, d_a),
        send_case(s1, s2, sent1, sent2, acts_b, mid_b, rid, sid_b, d_b),
    ensures
        acts_a.len() == 2 && is_write_plan(acts_a[0], mac, mid_a, sid_a, d_a),
        acts_b.len() == 2 && is_write_plan(acts_b[0], mac, mid_b, sid_b, d_b),
{
    assert(s1.registry == s0.registry);
    assert(s1.send_queue.queue_for(mac).len() == 0);
}

/// Out-of-range eviction happens exactly once: a sweep reports each stale
/// peer once (already part of [`sweep_case`]), and a second sweep after it
/// reports nothing for them, whatever time it runs at, because the first
/// sweep removed them.
pub proof fn lemma_eviction_once(
    s0: StartedBleService,
    s1: StartedBleService,
    s2: StartedBleService,
    sent0: Seq<Seq<u8>>,
    sent1: Seq<Seq<u8>>,
    sent2: Seq<Seq<u8>>,
    acts1: Seq<BleAction>,
    acts2: Seq<BleAction>,
    now1: u64,
    threshold1: u64,
    now2: u64,
    threshold2: u64,
    mac: u64,
)
    requires
        sweep_case(s0, s1, sent0, sent1, acts1, now1, threshold1),
        sweep_case(s1, s2, sent1, sent2, acts2, now2, threshold2),
        s0.registry.has_mac(mac),
        out_of_range(s0.registry.last_seen(mac), now1, threshold1),
    ensures
        exists|j: int| 0 <= j < acts1.len() && #[trigger] acts1[j] == BleAction::RemoveDevice(mac),
        forall|j: int| 0 <= j < acts2.len() ==> #[trigger] acts2[j] != BleAction::RemoveDevice(mac),
{
    assert(!s1.registry.has_mac(mac));
    assert forall|j: int|
        0 <= j < acts2.len() implies #[trigger] acts2[j] != BleAction::RemoveDevice(mac) by {
        if acts2[j] == BleAction::RemoveDevice(mac) {
            assert(s1.registry.has_mac(mac));
        }
    }
}

/// The discovery filter's scope: an enumeration whose services do not
/// advertise the main service produces no discovered events and registers
/// nothing.
pub proof fn lemma_filter_scope(report: DiscoveryReport)
    requires
        forall|i: int|
            0 <= i < report.services@.len() ==> (#[trigger] report.services@[i]).uuid
                != main_service_val(),
    ensures
        found_in_services(report.services@) =~= Seq::<Seq<u8>>::empty(),
        found_in_services(report.services@).map_values(
            |id: Seq<u8>| discovered_event(id, rssi_or_sentinel(report.rssi)),
        ) =~= Seq::<Seq<u8>>::empty(),
{
    lemma_discovery_filter_scope(report.services@);
}

} // verus!
