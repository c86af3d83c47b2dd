//! Inbound RTCP: what reports change in the receiver accounting and in the
//! peer's view of our stream.
use vstd::prelude::*;
use webrtc_srtp::context::Context;

use crate::dtls_session::{remote_srtp_params, SrtpKeyingMaterial};
use crate::rtcp::{ntp_middle_32, ntp_now, parse, ReportBlock, RtcpItem};
use crate::rtcp::{item_views, middle_32, parsed, Item};
use crate::rtcp_stats::{RemoteReport, RxStats};
use crate::rtcp_stats::Rx;
use crate::srtp::new_context;
use crate::srtp::{new_log, slot_log};

verus! {

/// The log of an inbound context: what it is, where there is one; else that of
/// a new one, once there are keys of the lengths that the profile has.
pub open spec fn inbound_log(
    log: Option<Seq<(u8, Seq<u8>)>>,
    keys: Option<SrtpKeyingMaterial>,
) -> Option<Seq<(u8, Seq<u8>)>> {
    match (log, keys) {
        (Some(_), _) => log,
        (None, Some(k)) => if k.remote_key().len() == k.profile.spec_key_len()
            && k.remote_salt().len() == k.profile.spec_salt_len() {
            Some(new_log(k.remote_key(), k.remote_salt(), k.profile))
        } else {
            None
        },
        (None, None) => None,
    }
}

/// Builds an inbound SRTP or SRTCP context once there is keying material.
/// Nothing happens when there is one already.
pub fn maybe_build_decrypt(keys: &Option<SrtpKeyingMaterial>, slot: &mut Option<Context>)
    ensures
        slot_log(*final(slot)) == inbound_log(slot_log(*old(slot)), *keys),
        *old(slot) is Some ==> *final(slot) == *old(slot),
{
    if slot.is_some() {
        return;
    }
    if let Some(k) = keys {
        let (key, salt, profile) = remote_srtp_params(k);
        if let Some(ctx) = new_context(key, salt, profile) {
            *slot = Some(ctx);
        }
    }
}

/// The peer's view of our stream after its report blocks: those about our SSRC
/// are folded in, in order.
pub open spec fn folded_all(
    report: RemoteReport,
    blocks: Seq<ReportBlock>,
    local_ssrc: u32,
    now_ntp_mid: u32,
) -> RemoteReport
    decreases blocks.len(),
{
    if blocks.len() == 0 {
        report
    } else {
        let before = folded_all(report, blocks.drop_last(), local_ssrc, now_ntp_mid);
        if blocks.last().ssrc == local_ssrc {
            before.folded(blocks.last(), now_ntp_mid)
        } else {
            before
        }
    }
}

/// What the items of a compound change.
pub open spec fn accounted(
    rx: Rx,
    report: RemoteReport,
    items: Seq<Item>,
    local_ssrc: u32,
    now: u64,
    now_ntp_mid: u32,
) -> (Rx, RemoteReport)
    decreases items.len(),
{
    if items.len() == 0 {
        (rx, report)
    } else {
        let (r, p) = accounted(rx, report, items.drop_last(), local_ssrc, now, now_ntp_mid);
        match items.last() {
            Item::SenderReport { info, reports, .. } => (
                Rx {
                    last_sr_ntp_mid: middle_32(info.ntp_sec, info.ntp_frac),
                    last_sr_at: Some(now),
                    ..r
                },
                folded_all(p, reports, local_ssrc, now_ntp_mid),
            ),
            Item::ReceiverReport { reports, .. } => (
                r,
                folded_all(p, reports, local_ssrc, now_ntp_mid),
            ),
            Item::Bye { .. } => (r, p),
        }
    }
}

/// What a compound changes: nothing when it cannot be read.
pub open spec fn compound_accounted(
    rx: Rx,
    report: RemoteReport,
    pkt: Seq<u8>,
    local_ssrc: u32,
    now: u64,
    now_ntp_mid: u32,
) -> (Rx, RemoteReport) {
    match parsed(pkt) {
        Ok(items) => accounted(rx, report, items, local_ssrc, now, now_ntp_mid),
        Err(_) => (rx, report),
    }
}

fn fold_reports(
    report: &mut RemoteReport,
    reports: &Vec<ReportBlock>,
    local_ssrc: u32,
    now_ntp_mid: u32,
)
    ensures
        *final(report) == folded_all(*old(report), reports@, local_ssrc, now_ntp_mid),
{
    let mut i: usize = 0;
    while i < reports.len()
        invariant
            i <= reports@.len(),
            *report == folded_all(*old(report), reports@.take(i as int), local_ssrc, now_ntp_mid),
        decreases reports@.len() - i,
    {
        assert(reports@.take(i + 1).drop_last() =~= reports@.take(i as int));
        if reports[i].ssrc == local_ssrc {
            report.update_from(&reports[i], now_ntp_mid);
        }
        i += 1;
    }
    assert(reports@.take(i as int) =~= reports@);
}

/// Folds one compound RTCP packet into the accounting: a sender report is noted
/// for the next report's LSR and DLSR, and report blocks about `local_ssrc` are
/// the peer's view of our stream. A BYE changes nothing. What cannot be read is
/// ignored.
pub fn handle_rtcp_plain(
    pkt: &[u8],
    rx_stats: &mut RxStats,
    remote_report: &mut RemoteReport,
    local_ssrc: u32,
    now: u64,
    now_ntp_mid: u32,
)
    ensures
        (final(rx_stats)@, *final(remote_report)) == compound_accounted(
            old(rx_stats)@,
            *old(remote_report),
            pkt@,
            local_ssrc,
            now,
            now_ntp_mid,
        ),
        old(rx_stats)@.inv() ==> final(rx_stats)@.inv(),
{
    let items: Vec<RtcpItem> = match parse(pkt) {
        Ok(items) => items,
        Err(_) => {
            return;
        },
    };
    let ghost views = item_views(items@);
    let mut i: usize = 0;
    while i < items.len()
        invariant
            i <= items@.len(),
            views == item_views(items@),
            old(rx_stats)@.inv() ==> rx_stats@.inv(),
            (rx_stats@, *remote_report) == accounted(
                old(rx_stats)@,
                *old(remote_report),
                views.take(i as int),
                local_ssrc,
                now,
                now_ntp_mid,
            ),
        decreases items@.len() - i,
    {
        assert(views.take(i + 1).drop_last() =~= views.take(i as int));
        assert(views.take(i + 1).last() == items@[i as int]@);
        match &items[i] {
            RtcpItem::SenderReport { info, reports, .. } => {
                rx_stats.note_sender_report(info.ntp_sec, info.ntp_frac, now);
                fold_reports(remote_report, reports, local_ssrc, now_ntp_mid);
            },
            RtcpItem::ReceiverReport { reports, .. } => {
                fold_reports(remote_report, reports, local_ssrc, now_ntp_mid);
            },
            RtcpItem::Bye { .. } => {},
        }
        i += 1;
    }
    assert(views.take(i as int) =~= views);
}

/// Handles one packet that arrived on the control port at `now`, by the wall
/// clock for the round trip: the accounting is that of `handle_rtcp_plain` at
/// some time of that clock.
pub fn handle_packet(
    rx_stats: &mut RxStats,
    remote_report: &mut RemoteReport,
    local_ssrc: u32,
    pkt: &[u8],
    now: u64,
)
    ensures
        exists|now_ntp_mid: u32|
            (final(rx_stats)@, *final(remote_report)) == #[trigger] compound_accounted(
                old(rx_stats)@,
                *old(remote_report),
                pkt@,
                local_ssrc,
                now,
                now_ntp_mid,
            ),
        old(rx_stats)@.inv() ==> final(rx_stats)@.inv(),
{
    let (ntp_sec, ntp_frac) = ntp_now();
    let now_ntp_mid: u32 = ntp_middle_32(ntp_sec, ntp_frac);
    handle_rtcp_plain(pkt, rx_stats, remote_report, local_ssrc, now, now_ntp_mid);
}

/// Report blocks about other SSRCs change nothing.
pub proof fn lemma_other_streams_ignored(
    report: RemoteReport,
    blocks: Seq<ReportBlock>,
    local_ssrc: u32,
    now_ntp_mid: u32,
)
    requires
        forall|i: int| 0 <= i < blocks.len() ==> (#[trigger] blocks[i]).ssrc != local_ssrc,
    ensures
        folded_all(report, blocks, local_ssrc, now_ntp_mid) == report,
    decreases blocks.len(),
{
    if blocks.len() > 0 {
        let rest = blocks.drop_last();
        assert forall|i: int| 0 <= i < rest.len() implies (#[trigger] rest[i]).ssrc
            != local_ssrc by {
            assert(blocks[i].ssrc != local_ssrc);
        }
        lemma_other_streams_ignored(report, rest, local_ssrc, now_ntp_mid);
        assert(blocks[blocks.len() - 1].ssrc != local_ssrc);
    }
}

} // verus!
