//! The messages between clients and nodes, and how they are framed.
use vstd::prelude::*;

use crate::engine::registry;
use crate::engine::shard::PolledView;
use crate::wire;
use crate::wire::{get_be, put_be};

verus! {

broadcast use crate::wire::lemma_be_len;

#[derive(Debug, Clone, PartialEq, Eq)]
pub struct BatchPushItem {
    pub payload: Vec<u8>,
    pub delay_seconds: u64,
    pub message_id: String,
}

#[derive(Debug, Clone, PartialEq, Eq)]
pub struct AckItem {
    pub message_id: String,
    pub receipt_handle: String,
}

#[derive(Debug, Clone, PartialEq, Eq)]
pub struct Message {
    pub message_id: String,
    pub payload: Vec<u8>,
    pub receipt_handle: String,
    pub delivery_count: u32,
}

#[derive(Debug, Clone, PartialEq, Eq)]
pub struct RaftLogEntryWire {
    pub term: u64,
    pub index: u64,
    pub command: Vec<u8>,
}

#[derive(Debug, Clone)]
pub struct SnapshotItem {
    pub id: String,
    pub queue: String,
    pub visible_at: u64,
    pub payload: Vec<u8>,
}

#[derive(Debug, Clone)]
pub enum Request {
    Push { queue_name: String, payload: Vec<u8>, delay_seconds: u64, message_id: String },
    PushBatch { queue_name: String, items: Vec<BatchPushItem> },
    Poll { queue_name: String, visibility_timeout_sec: u32, batch_size: u32 },
    Ack { queue_name: String, message_id: String, receipt_handle: String },
    AckBatch { queue_name: String, items: Vec<AckItem> },
    RaftVote { term: u64, candidate_id: String, last_log_index: u64, last_log_term: u64 },
    RaftAppend {
        term: u64,
        leader_id: String,
        prev_log_index: u64,
        prev_log_term: u64,
        entries: Vec<RaftLogEntryWire>,
        leader_commit: u64,
    },
    RaftInstallSnapshot {
        term: u64,
        leader_id: String,
        last_included_index: u64,
        last_included_term: u64,
        items: Vec<SnapshotItem>,
    },
    JoinCluster { peer_addr: String },
    LeaveCluster { peer_addr: String },
    Metrics,
}

#[derive(Debug, Clone)]
pub enum Response {
    Push { message_id: String },
    PushBatch { message_ids: Vec<String> },
    Poll { messages: Vec<Message> },
    Ack { success: bool },
    AckBatch { acked_count: u32 },
    RaftVote { term: u64, vote_granted: bool },
    RaftAppend { term: u64, success: bool },
    RaftInstallSnapshot { term: u64, success: bool },
    ClusterMembership { success: bool, members: Vec<String> },
    Metrics { prometheus_text: String },
    Redirect { leader: String },
    Error { message: String },
}

/// The mathematical content of a [`Response`].
pub enum ResponseView {
    Push { message_id: Seq<char> },
    PushBatch { message_ids: Seq<Seq<char>> },
    Poll { messages: Seq<PolledView> },
    Ack { success: bool },
    AckBatch { acked_count: u32 },
    RaftVote { term: u64, vote_granted: bool },
    RaftAppend { term: u64, success: bool },
    RaftInstallSnapshot { term: u64, success: bool },
    ClusterMembership { success: bool, members: Seq<Seq<char>> },
    Metrics { prometheus_text: Seq<char> },
    Redirect { leader: Seq<char> },
    Error { message: Seq<char> },
}

impl View for Message {
    type V = PolledView;

    open spec fn view(&self) -> PolledView {
        PolledView {
            message_id: self.message_id@,
            payload: self.payload@,
            receipt_handle: self.receipt_handle@,
            delivery_count: self.delivery_count,
        }
    }
}

pub open spec fn message_views(messages: Seq<Message>) -> Seq<PolledView> {
    messages.map_values(|m: Message| m@)
}

impl View for Response {
    type V = ResponseView;

    open spec fn view(&self) -> ResponseView {
        match *self {
            Response::Push { message_id } => ResponseView::Push { message_id: message_id@ },
            Response::PushBatch { message_ids } => ResponseView::PushBatch {
                message_ids: registry::text_views(message_ids@),
            },
            Response::Poll { messages } => ResponseView::Poll {
                messages: message_views(messages@),
            },
            Response::Ack { success } => ResponseView::Ack { success },
            Response::AckBatch { acked_count } => ResponseView::AckBatch { acked_count },
            Response::RaftVote { term, vote_granted } => ResponseView::RaftVote {
                term,
                vote_granted,
            },
            Response::RaftAppend { term, success } => ResponseView::RaftAppend { term, success },
            Response::RaftInstallSnapshot { term, success } => ResponseView::RaftInstallSnapshot {
                term,
                success,
            },
            Response::ClusterMembership { success, members } => ResponseView::ClusterMembership {
                success,
                members: registry::text_views(members@),
            },
            Response::Metrics { prometheus_text } => ResponseView::Metrics {
                prometheus_text: prometheus_text@,
            },
            Response::Redirect { leader } => ResponseView::Redirect { leader: leader@ },
            Response::Error { message } => ResponseView::Error { message: message@ },
        }
    }
}

/// A frame: the body's length in four bytes, and the body.
pub open spec fn frame(body: Seq<u8>) -> Seq<u8> {
    wire::be(body.len(), 4) + body
}

/// The body's length as the frame's first four bytes give it.
pub open spec fn body_len(header: Seq<u8>) -> nat {
    wire::be_value(header)
}

/// Frames a serialised message.
pub fn encode_frame(body: &[u8]) -> (framed: Vec<u8>)
    ensures
        framed@ == frame(body@),
{
    let mut framed: Vec<u8> = Vec::new();
    put_be(&mut framed, body.len() as u128, 4);
    framed.extend_from_slice(body);
    proof {
        assert(framed@ =~= frame(body@));
    }
    framed
}

/// How many bytes follow the four of a frame's header.
pub fn frame_body_len(header: &[u8]) -> (len: u32)
    requires
        header@.len() == 4,
    ensures
        len == body_len(header@),
{
    let len: u128 = get_be(header, 0, 4);
    proof {
        wire::lemma_be_widths();
        assert(header@.subrange(0, 4) =~= header@);
    }
    len as u32
}

/// The header of a frame tells where its body ends, for bodies that four bytes can count.
pub proof fn law_frame_round_trip(body: Seq<u8>)
    requires
        body.len() < 0x1_0000_0000,
    ensures
        frame(body).len() == 4 + body.len(),
        body_len(frame(body).take(4)) == body.len(),
        frame(body).skip(4) == body,
{
    wire::lemma_be_widths();
    wire::law_be_round_trip(body.len(), 4);
    assert(frame(body).take(4) =~= wire::be(body.len(), 4));
    assert(frame(body).skip(4) =~= body);
}

/// What a reader makes of a stream of bytes: the body of the frame that it starts with, and
/// what follows the frame; nothing if the stream ends inside the frame.
pub open spec fn first_frame(data: Seq<u8>) -> Option<(Seq<u8>, Seq<u8>)> {
    let n = body_len(data.take(4)) as int;
    if data.len() < 4 || data.len() - 4 < n {
        None
    } else {
        Some((data.subrange(4, 4 + n), data.skip(4 + n)))
    }
}

/// A reader gets the body of a frame back, whatever follows the frame, and goes on behind it.
/// From a stream that ends inside the frame it gets nothing.
pub proof fn law_frame_is_read_back(body: Seq<u8>, rest: Seq<u8>, cut: int)
    requires
        body.len() < 0x1_0000_0000,
        0 <= cut < frame(body).len(),
    ensures
        first_frame(frame(body) + rest) == Some((body, rest)),
        first_frame(frame(body).take(cut)) is None,
{
    law_frame_round_trip(body);
    let data = frame(body) + rest;
    let n = body.len() as int;
    assert(data.take(4) =~= frame(body).take(4));
    assert(data.subrange(4, 4 + n) =~= body);
    assert(data.skip(4 + n) =~= rest);
    if cut >= 4 {
        assert(frame(body).take(cut).take(4) =~= frame(body).take(4));
    }
}

}
