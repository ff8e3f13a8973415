//! The agent-facing envelope: one batch wrapped in a fire-and-forget
//! one-way message named `emitBatch`, under either wire protocol.

use vstd::prelude::*;

use crate::errors::Error;
use crate::jaeger::{batch_is_wf, encode_batch, spec_enc_batch, wf_batch, Batch, BatchV};
use crate::wire::{
    emit_be32, emit_bytes, emit_field_hdr, emit_stop, emit_varint, lemma_regroup4, spec_be32,
    spec_enc_bytes, spec_field_hdr, spec_stop, spec_varint, Protocol, BK_STRUCT, CK_STRUCT,
};

verus! {

/// The `emitBatch` message: a single-argument, one-way protocol message
/// whose sole argument is the batch.
#[derive(Debug, Clone, PartialEq)]
pub struct EmitBatchNotification {
    pub batch: Batch,
}

pub struct EmitBatchNotificationV {
    pub batch: BatchV,
}

impl View for EmitBatchNotification {
    type V = EmitBatchNotificationV;

    open spec fn view(&self) -> EmitBatchNotificationV {
        EmitBatchNotificationV { batch: self.batch@ }
    }
}

/// The ASCII bytes of the method name `emitBatch`.
pub open spec fn spec_method_name() -> Seq<u8> {
    seq![101u8, 109u8, 105u8, 116u8, 66u8, 97u8, 116u8, 99u8, 104u8]
}

/// The message envelope before the body struct.  The compact protocol
/// writes its protocol id, a version/kind byte (one-way is kind 4), the
/// sequence id 0 as a varint, then the method name; the binary protocol
/// writes its versioned header, the method name, then the sequence id 0 as
/// a fixed-width integer.
pub open spec fn spec_enc_message_hdr(p: Protocol) -> Seq<u8> {
    match p {
        Protocol::Compact => seq![0x82u8, 0x81u8] + spec_varint(0) + spec_enc_bytes(
            p,
            spec_method_name(),
        ),
        Protocol::Binary => seq![0x80u8, 0x01u8, 0x00u8, 0x04u8] + spec_enc_bytes(
            p,
            spec_method_name(),
        ) + spec_be32(0),
    }
}

/// The whole message: envelope, then a body struct whose single field 1
/// holds the batch.
pub open spec fn spec_enc_notification(p: Protocol, n: EmitBatchNotificationV) -> Seq<u8> {
    spec_enc_message_hdr(p) + spec_field_hdr(p, 0, 1, CK_STRUCT, BK_STRUCT) + spec_enc_batch(
        p,
        n.batch,
    ) + spec_stop()
}

fn emit_method_name(out: &mut Vec<u8>, p: Protocol)
    ensures
        final(out)@ == old(out)@ + spec_enc_bytes(p, spec_method_name()),
{
    let mut name: Vec<u8> = Vec::new();
    name.push(101);
    name.push(109);
    name.push(105);
    name.push(116);
    name.push(66);
    name.push(97);
    name.push(116);
    name.push(99);
    name.push(104);
    assert(name@ =~= spec_method_name());
    emit_bytes(out, p, name.as_slice());
}

fn emit_message_hdr(out: &mut Vec<u8>, p: Protocol)
    ensures
        final(out)@ == old(out)@ + spec_enc_message_hdr(p),
{
    match p {
        Protocol::Compact => {
            out.push(0x82);
            out.push(0x81);
            emit_varint(out, 0);
            emit_method_name(out, p);
            assert(out@ =~= old(out)@ + spec_enc_message_hdr(p));
        },
        Protocol::Binary => {
            out.push(0x80);
            out.push(0x01);
            out.push(0x00);
            out.push(0x04);
            emit_method_name(out, p);
            emit_be32(out, 0);
            assert(out@ =~= old(out)@ + spec_enc_message_hdr(p));
        },
    }
}

/// Serializes the notification under the chosen protocol, appending to
/// `out`.
pub fn encode_notification(out: &mut Vec<u8>, p: Protocol, n: &EmitBatchNotification)
    requires
        wf_batch(n.batch@),
    ensures
        final(out)@ == old(out)@ + spec_enc_notification(p, n@),
{
    emit_message_hdr(out, p);
    emit_field_hdr(out, p, 0, 1, CK_STRUCT, BK_STRUCT);
    encode_batch(out, p, &n.batch);
    emit_stop(out);
    proof {
        lemma_regroup4(
            old(out)@,
            spec_enc_message_hdr(p),
            spec_field_hdr(p, 0, 1, CK_STRUCT, BK_STRUCT),
            spec_enc_batch(p, n@.batch),
            spec_stop(),
        );
    }
}

/// Serializes the notification, checking first that every string and list
/// fits the wire's length fields; fails with the oversize error exactly
/// when one does not.
pub fn try_encode_notification(p: Protocol, n: &EmitBatchNotification) -> (r: Result<
    Vec<u8>,
    Error,
>)
    ensures
        wf_batch(n.batch@) ==> (r matches Ok(bytes) && bytes@ == spec_enc_notification(p, n@)),
        !wf_batch(n.batch@) ==> r == Err::<Vec<u8>, Error>(Error::Oversize),
{
    if batch_is_wf(&n.batch) {
        let mut out: Vec<u8> = Vec::new();
        encode_notification(&mut out, p, n);
        assert(out@ =~= spec_enc_notification(p, n@));
        Ok(out)
    } else {
        Err(Error::Oversize)
    }
}

} // verus!
