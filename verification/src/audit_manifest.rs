//! The manifest of an audit history: its segments and purged ranges.
use crate::audit::{AuditDiscontinuity, GapModel};
use crate::bytes::same;
use crate::cbor::{
    array_head, bytes_item, lemma_array, lemma_bytes_len, lemma_bytes_within, lemma_head_len,
    lemma_map, lemma_null, lemma_text_within, lemma_uint, map_head, null_item, take_array,
    take_head, take_key, take_map_of, take_null, take_uint, text_item, uint_item, Reader, Writer,
};
use crate::errors::HumanCommitError;
use crate::lists::{
    after, fixed_at, lemma_array_of, next_array, next_fixed, next_key, next_uint, take_digest,
    take_id,
};
use crate::ordered::same_array;
use crate::views::views;
use vstd::prelude::*;

verus! {

/// A segment as its row and its records show it.
pub struct ManifestSegment {
    pub segment_id: Vec<u8>,
    pub first_seq: u64,
    pub last_seq: u64,
    pub previous_hash: Vec<u8>,
    pub last_hash: Vec<u8>,
    pub record_hashes: Vec<Vec<u8>>,
}

/// The contents of a [`ManifestSegment`].
pub struct SegmentModel {
    pub segment_id: Seq<u8>,
    pub first_seq: u64,
    pub last_seq: u64,
    pub previous_hash: Seq<u8>,
    pub last_hash: Seq<u8>,
    pub record_hashes: Seq<Seq<u8>>,
}

impl View for ManifestSegment {
    type V = SegmentModel;

    open spec fn view(&self) -> SegmentModel {
        SegmentModel {
            segment_id: self.segment_id@,
            first_seq: self.first_seq,
            last_seq: self.last_seq,
            previous_hash: self.previous_hash@,
            last_hash: self.last_hash@,
            record_hashes: views(self.record_hashes@),
        }
    }
}

/// The end of the generation before.
pub struct PreviousGeneration {
    pub generation: u64,
    pub last_hash: Vec<u8>,
}

/// The contents of a [`PreviousGeneration`].
pub struct PreviousModel {
    pub generation: u64,
    pub last_hash: Seq<u8>,
}

impl View for PreviousGeneration {
    type V = PreviousModel;

    open spec fn view(&self) -> PreviousModel {
        PreviousModel { generation: self.generation, last_hash: self.last_hash@ }
    }
}

/// The contents of an optional [`PreviousGeneration`].
pub open spec fn previous_view(p: Option<PreviousGeneration>) -> Option<PreviousModel> {
    match p {
        Some(p) => Some(p@),
        None => None,
    }
}

/// What a manifest records of one generation.
pub struct Manifest {
    pub device: [u8; 16],
    pub generation: u64,
    pub previous_generation: Option<PreviousGeneration>,
    pub segments: Vec<ManifestSegment>,
    pub purges: Vec<AuditDiscontinuity>,
}

/// The contents of a [`Manifest`].
pub struct ManifestModel {
    pub device: [u8; 16],
    pub generation: u64,
    pub previous_generation: Option<PreviousModel>,
    pub segments: Seq<SegmentModel>,
    pub purges: Seq<GapModel>,
}

impl View for Manifest {
    type V = ManifestModel;

    open spec fn view(&self) -> ManifestModel {
        ManifestModel {
            device: self.device,
            generation: self.generation,
            previous_generation: previous_view(self.previous_generation),
            segments: views(self.segments@),
            purges: views(self.purges@),
        }
    }
}

/// The hashes of a list, followed by `t`.
pub open spec fn hashes_tail(v: Seq<Seq<u8>>, t: Seq<u8>) -> Seq<u8>
    decreases v.len(),
{
    if v.len() == 0 {
        t
    } else {
        bytes_item(v[0]) + hashes_tail(v.skip(1), t)
    }
}

/// A list of hashes, followed by `t`.
pub open spec fn hashes_then(v: Seq<Seq<u8>>, t: Seq<u8>) -> Seq<u8> {
    array_head(v.len() as u64) + hashes_tail(v, t)
}

/// Appends a list of hashes.
fn put_hashes(w: &mut Writer, values: &Vec<Vec<u8>>)
    ensures
        forall|t: Seq<u8>|
            #![trigger old(w)@ + hashes_then(views(values@), t)]
            final(w)@ + t == old(w)@ + hashes_then(views(values@), t),
{
    let ghost start = w@;
    let ghost all = views(values@);
    w.array(values.len() as u64);
    let mut i: usize = 0;
    assert(all.skip(0) =~= all);
    while i < values.len()
        invariant
            i <= values@.len(),
            all == views(values@),
            forall|t: Seq<u8>|
                #![trigger start + hashes_then(all, t)]
                w@ + hashes_tail(all.skip(i as int), t) == start + hashes_then(all, t),
        decreases values@.len() - i,
    {
        assert(all.skip(i as int).skip(1) =~= all.skip(i + 1));
        assert(all.skip(i as int)[0] == all[i as int]);
        assert forall|t: Seq<u8>| #![trigger start + hashes_then(all, t)] w@
            + bytes_item(all[i as int]) + hashes_tail(all.skip(i + 1), t)
            == start + hashes_then(all, t) by {
        }
        w.bytes(values[i].as_slice());
        i += 1;
    }
    assert(all.skip(i as int) =~= Seq::empty());
}

/// A segment, followed by `t`.
pub open spec fn segment_then(m: SegmentModel, t: Seq<u8>) -> Seq<u8> {
    map_head(6) + (text_item("segment_id"@) + (bytes_item(m.segment_id) + (text_item("first_seq"@)
        + (uint_item(m.first_seq) + (text_item("last_seq"@) + (uint_item(m.last_seq)
        + (text_item("previous_hash"@) + (bytes_item(m.previous_hash) + (text_item("last_hash"@)
        + (bytes_item(m.last_hash) + (text_item("record_hashes"@)
        + (hashes_then(m.record_hashes, t)))))))))))))
}

/// Appends a segment.
fn put_segment(w: &mut Writer, x: &ManifestSegment)
    ensures
        forall|t: Seq<u8>|
            #![trigger old(w)@ + segment_then(x@, t)]
            final(w)@ + t == old(w)@ + segment_then(x@, t),
{
    w.map(6);
    w.str("segment_id");
    w.bytes(x.segment_id.as_slice());
    w.str("first_seq");
    w.u64(x.first_seq);
    w.str("last_seq");
    w.u64(x.last_seq);
    w.str("previous_hash");
    w.bytes(x.previous_hash.as_slice());
    w.str("last_hash");
    w.bytes(x.last_hash.as_slice());
    w.str("record_hashes");
    put_hashes(w, &x.record_hashes);
}

/// The segments of a list, followed by `t`.
pub open spec fn segments_tail(v: Seq<SegmentModel>, t: Seq<u8>) -> Seq<u8>
    decreases v.len(),
{
    if v.len() == 0 {
        t
    } else {
        segment_then(v[0], segments_tail(v.skip(1), t))
    }
}

/// A list of segments, followed by `t`.
pub open spec fn segments_then(v: Seq<SegmentModel>, t: Seq<u8>) -> Seq<u8> {
    array_head(v.len() as u64) + segments_tail(v, t)
}

/// Appends a list of segments.
fn put_segments(w: &mut Writer, values: &Vec<ManifestSegment>)
    ensures
        forall|t: Seq<u8>|
            #![trigger old(w)@ + segments_then(views(values@), t)]
            final(w)@ + t == old(w)@ + segments_then(views(values@), t),
{
    let ghost start = w@;
    let ghost all = views(values@);
    w.array(values.len() as u64);
    let mut i: usize = 0;
    assert(all.skip(0) =~= all);
    while i < values.len()
        invariant
            i <= values@.len(),
            all == views(values@),
            forall|t: Seq<u8>|
                #![trigger start + segments_then(all, t)]
                w@ + segments_tail(all.skip(i as int), t) == start + segments_then(all, t),
        decreases values@.len() - i,
    {
        assert(all.skip(i as int).skip(1) =~= all.skip(i + 1));
        assert(all.skip(i as int)[0] == all[i as int]);
        assert forall|t: Seq<u8>| #![trigger start + segments_then(all, t)] w@
            + segment_then(all[i as int], segments_tail(all.skip(i + 1), t))
            == start + segments_then(all, t) by {
        }
        put_segment(w, &values[i]);
        i += 1;
    }
    assert(all.skip(i as int) =~= Seq::empty());
}

/// A purged range, followed by `t`.
pub open spec fn gap_then(m: GapModel, t: Seq<u8>) -> Seq<u8> {
    map_head(3) + (text_item("first_seq"@) + (uint_item(m.first_seq) + (text_item("last_seq"@)
        + (uint_item(m.last_seq) + (text_item("purge_event_id"@)
        + (bytes_item(m.purge_event_id@) + t))))))
}

/// Appends a purged range.
fn put_gap(w: &mut Writer, x: &AuditDiscontinuity)
    ensures
        forall|t: Seq<u8>|
            #![trigger old(w)@ + gap_then(x@, t)]
            final(w)@ + t == old(w)@ + gap_then(x@, t),
{
    w.map(3);
    w.str("first_seq");
    w.u64(x.first_seq());
    w.str("last_seq");
    w.u64(x.last_seq());
    w.str("purge_event_id");
    w.bytes(x.purge_event_id());
}

/// The purged ranges of a list, followed by `t`.
pub open spec fn gaps_tail(v: Seq<GapModel>, t: Seq<u8>) -> Seq<u8>
    decreases v.len(),
{
    if v.len() == 0 {
        t
    } else {
        gap_then(v[0], gaps_tail(v.skip(1), t))
    }
}

/// A list of purged ranges, followed by `t`.
pub open spec fn gaps_then(v: Seq<GapModel>, t: Seq<u8>) -> Seq<u8> {
    array_head(v.len() as u64) + gaps_tail(v, t)
}

/// Appends a list of purged ranges.
fn put_gaps(w: &mut Writer, values: &Vec<AuditDiscontinuity>)
    ensures
        forall|t: Seq<u8>|
            #![trigger old(w)@ + gaps_then(views(values@), t)]
            final(w)@ + t == old(w)@ + gaps_then(views(values@), t),
{
    let ghost start = w@;
    let ghost all = views(values@);
    w.array(values.len() as u64);
    let mut i: usize = 0;
    assert(all.skip(0) =~= all);
    while i < values.len()
        invariant
            i <= values@.len(),
            all == views(values@),
            forall|t: Seq<u8>|
                #![trigger start + gaps_then(all, t)]
                w@ + gaps_tail(all.skip(i as int), t) == start + gaps_then(all, t),
        decreases values@.len() - i,
    {
        assert(all.skip(i as int).skip(1) =~= all.skip(i + 1));
        assert(all.skip(i as int)[0] == all[i as int]);
        assert forall|t: Seq<u8>| #![trigger start + gaps_then(all, t)] w@
            + gap_then(all[i as int], gaps_tail(all.skip(i + 1), t))
            == start + gaps_then(all, t) by {
        }
        put_gap(w, &values[i]);
        i += 1;
    }
    assert(all.skip(i as int) =~= Seq::empty());
}

/// The end of the generation before, or null, followed by `t`.
pub open spec fn previous_then(m: Option<PreviousModel>, t: Seq<u8>) -> Seq<u8> {
    match m {
        Some(p) => map_head(2) + (text_item("generation"@) + (uint_item(p.generation)
            + (text_item("last_hash"@) + (bytes_item(p.last_hash) + t)))),
        None => null_item() + t,
    }
}

/// Appends the end of the generation before, or null.
fn put_previous(w: &mut Writer, x: &Option<PreviousGeneration>)
    ensures
        forall|t: Seq<u8>|
            #![trigger old(w)@ + previous_then(previous_view(*x), t)]
            final(w)@ + t == old(w)@ + previous_then(previous_view(*x), t),
{
    match x {
        Some(p) => {
            w.map(2);
            w.str("generation");
            w.u64(p.generation);
            w.str("last_hash");
            w.bytes(p.last_hash.as_slice());
        },
        None => {
            w.null();
        },
    }
}

/// A manifest, followed by `t`.
pub open spec fn manifest_then(m: ManifestModel, t: Seq<u8>) -> Seq<u8> {
    map_head(6) + (text_item("v"@) + (uint_item(1) + (text_item("device"@) + (bytes_item(m.device@)
        + (text_item("generation"@) + (uint_item(m.generation) + (text_item("previous_generation"@)
        + (previous_then(m.previous_generation, text_item("segments"@)
        + (segments_then(m.segments, text_item("purge_ranges"@)
        + (gaps_then(m.purges, t)))))))))))))
}

/// A manifest.
pub open spec fn manifest_bytes(m: ManifestModel) -> Seq<u8> {
    manifest_then(m, Seq::empty())
}

/// Appends a manifest.
fn put_manifest(w: &mut Writer, x: &Manifest)
    ensures
        forall|t: Seq<u8>|
            #![trigger old(w)@ + manifest_then(x@, t)]
            final(w)@ + t == old(w)@ + manifest_then(x@, t),
{
    w.map(6);
    w.str("v");
    w.u64(1);
    w.str("device");
    w.bytes(&x.device);
    w.str("generation");
    w.u64(x.generation);
    w.str("previous_generation");
    put_previous(w, &x.previous_generation);
    w.str("segments");
    put_segments(w, &x.segments);
    w.str("purge_ranges");
    put_gaps(w, &x.purges);
}

/// Encodes a manifest.
pub fn encode_manifest(x: &Manifest) -> (r: Vec<u8>)
    ensures
        r@ == manifest_bytes(x@),
{
    let mut w = Writer::new();
    let ghost none = Seq::<u8>::empty();
    assert(none + manifest_then(x@, none) =~= manifest_bytes(x@));
    put_manifest(&mut w, x);
    assert(w@ + none =~= w@);
    w.finish()
}

/// What follows `n` hashes at the front of `b`.
pub open spec fn hashes_after(b: Seq<u8>, n: nat) -> Option<Seq<u8>>
    decreases n,
{
    if n == 0 {
        Some(b)
    } else {
        match fixed_at::<32>(b) {
            Some((_, t)) => hashes_after(t, (n - 1) as nat),
            None => None,
        }
    }
}

/// What follows the segment at the front of `b`.
pub open spec fn segment_after(b: Seq<u8>) -> Option<Seq<u8>> {
    let segment = next_fixed::<16>(next_key(take_map_of(b, 6), "segment_id"@));
    let first_seq = next_uint(next_key(after(segment), "first_seq"@));
    let last_seq = next_uint(next_key(after(first_seq), "last_seq"@));
    let previous_hash = next_fixed::<32>(next_key(after(last_seq), "previous_hash"@));
    let last_hash = next_fixed::<32>(next_key(after(previous_hash), "last_hash"@));
    match next_array(next_key(after(last_hash), "record_hashes"@)) {
        Some((n, b)) => hashes_after(b, n as nat),
        None => None,
    }
}

/// What follows `n` segments at the front of `b`.
pub open spec fn segments_after(b: Seq<u8>, n: nat) -> Option<Seq<u8>>
    decreases n,
{
    if n == 0 {
        Some(b)
    } else {
        match segment_after(b) {
            Some(t) => segments_after(t, (n - 1) as nat),
            None => None,
        }
    }
}

/// The purged range at the front of `b` and what follows it.
pub open spec fn gap_at(b: Seq<u8>) -> Option<(GapModel, Seq<u8>)> {
    match take_map_of(b, 3) {
        Some(b) => match take_key(b, "first_seq"@) {
            Some(b) => match take_uint(b) {
                Some((first_seq, b)) => match take_key(b, "last_seq"@) {
                    Some(b) => match take_uint(b) {
                        Some((last_seq, b)) => match take_key(b, "purge_event_id"@) {
                            Some(b) => match fixed_at::<16>(b) {
                                Some((purge_event_id,
                                    b)) => Some((GapModel { first_seq, last_seq, purge_event_id },
                                    b)),
                                None => None,
                            },
                            None => None,
                        },
                        None => None,
                    },
                    None => None,
                },
                None => None,
            },
            None => None,
        },
        None => None,
    }
}

/// The purged ranges `before` and the `n` at the front of `b`, and what follows.
pub open spec fn gaps_at(before: Seq<GapModel>, b: Seq<u8>, n: nat) -> Option<
    (Seq<GapModel>, Seq<u8>),
>
    decreases n,
{
    if n == 0 {
        Some((before, b))
    } else {
        match gap_at(b) {
            Some((g, t)) => gaps_at(before.push(g), t, (n - 1) as nat),
            None => None,
        }
    }
}

/// What follows the end of an earlier generation, or null, at the front of `b`.
pub open spec fn previous_after(b: Seq<u8>, generation: u64) -> Option<Seq<u8>> {
    match take_null(b) {
        Some(b) => Some(b),
        None => match take_map_of(b, 2) {
            Some(b) => match take_key(b, "generation"@) {
                Some(b) => match take_uint(b) {
                    Some((previous, b)) => if previous < generation {
                        match take_key(b, "last_hash"@) {
                            Some(b) => match fixed_at::<32>(b) {
                                Some((_a, b)) => Some(b),
                                None => None,
                            },
                            None => None,
                        }
                    } else {
                        None
                    },
                    None => None,
                },
                None => None,
            },
            None => None,
        },
    }
}

/// What follows the head of the manifest of a generation.
pub open spec fn manifest_head(b: Seq<u8>, device: [u8; 16], generation: u64) -> Option<Seq<u8>> {
    let v = next_uint(next_key(take_map_of(b, 6), "v"@));
    let own_device = next_fixed::<16>(next_key(after(v), "device"@));
    let own_generation = next_uint(next_key(after(own_device), "generation"@));
    match next_key(after(own_generation), "previous_generation"@) {
        Some(b) => if (v->0).0 == 1 && (own_device->0).0 == device && (own_generation->0).0
            == generation {
            previous_after(b, generation)
        } else {
            None
        },
        None => None,
    }
}

/// The purged ranges that the manifest of a generation lists.
pub open spec fn purges_of(b: Seq<u8>, device: [u8; 16], generation: u64) -> Option<
    Seq<GapModel>,
> {
    match manifest_head(b, device, generation) {
        Some(b) => match take_key(b, "segments"@) {
            Some(b) => match take_array(b) {
                Some((n, b)) => match segments_after(b, n as nat) {
                    Some(b) => match take_key(b, "purge_ranges"@) {
                        Some(b) => match take_array(b) {
                            Some((n, b)) => match gaps_at(Seq::empty(), b, n as nat) {
                                Some((gaps, b)) => if b.len() == 0 {
                                    Some(gaps)
                                } else {
                                    None
                                },
                                None => None,
                            },
                            None => None,
                        },
                        None => None,
                    },
                    None => None,
                },
                None => None,
            },
            None => None,
        },
        None => None,
    }
}

/// Passes over a segment.
fn skip_segment(d: &mut Reader) -> (r: Option<()>)
    ensures
        match segment_after(old(d).rest()) {
            Some(t) => r is Some && final(d).rest() == t,
            None => r is None,
        },
{
    d.map_of(6)?;
    d.key("segment_id")?;
    take_id(d)?;
    d.key("first_seq")?;
    d.u64()?;
    d.key("last_seq")?;
    d.u64()?;
    d.key("previous_hash")?;
    take_digest(d)?;
    d.key("last_hash")?;
    take_digest(d)?;
    d.key("record_hashes")?;
    let n: u64 = d.array()?;
    let mut i: u64 = 0;
    while i < n
        invariant
            i <= n,
            segment_after(old(d).rest()) == hashes_after(d.rest(), (n - i) as nat),
        decreases n - i,
    {
        take_digest(d)?;
        i += 1;
    }
    Some(())
}

/// Passes over the end of an earlier generation, or null.
fn skip_previous(d: &mut Reader, generation: u64) -> (r: Option<()>)
    ensures
        match previous_after(old(d).rest(), generation) {
            Some(t) => r is Some && final(d).rest() == t,
            None => r is None,
        },
{
    if d.is_null() {
        return d.null();
    }
    d.map_of(2)?;
    d.key("generation")?;
    let previous: u64 = d.u64()?;
    if !(previous < generation) {
        return None;
    }
    d.key("last_hash")?;
    take_digest(d)?;
    Some(())
}

/// Reads the head of the manifest of a generation.
fn read_head(d: &mut Reader, device: &[u8; 16], generation: u64) -> (r: Option<()>)
    ensures
        match manifest_head(old(d).rest(), *device, generation) {
            Some(t) => r is Some && final(d).rest() == t,
            None => r is None,
        },
{
    d.map_of(6)?;
    d.key("v")?;
    let v: u64 = d.u64()?;
    if !(v == 1) {
        return None;
    }
    d.key("device")?;
    let a = take_id(d)?;
    if !(same_array(&a, device)) {
        return None;
    }
    d.key("generation")?;
    let n: u64 = d.u64()?;
    if !(n == generation) {
        return None;
    }
    d.key("previous_generation")?;
    skip_previous(d, generation)
}

/// Reads a purged range.
fn read_gap(d: &mut Reader) -> (r: Option<AuditDiscontinuity>)
    ensures
        match gap_at(old(d).rest()) {
            Some((g, t)) => r is Some && (r->0)@ == g && final(d).rest() == t,
            None => r is None,
        },
{
    d.map_of(3)?;
    d.key("first_seq")?;
    let first_seq: u64 = d.u64()?;
    d.key("last_seq")?;
    let last_seq: u64 = d.u64()?;
    d.key("purge_event_id")?;
    let purge_event_id = take_id(d)?;
    Some(AuditDiscontinuity::new(first_seq, last_seq, purge_event_id))
}

/// Passes over the segments.
fn skip_segments(d: &mut Reader) -> (r: Option<()>)
    ensures
        match take_key(old(d).rest(), "segments"@) {
            Some(b) => match take_array(b) {
                Some((n, b)) => match segments_after(b, n as nat) {
                    Some(t) => r is Some && final(d).rest() == t,
                    None => r is None,
                },
                None => r is None,
            },
            None => r is None,
        },
{
    d.key("segments")?;
    let n: u64 = d.array()?;
    let ghost start = d.rest();
    let mut i: u64 = 0;
    while i < n
        invariant
            i <= n,
            segments_after(start, n as nat) == segments_after(d.rest(), (n - i) as nat),
            match take_key(old(d).rest(), "segments"@) {
                Some(b) => take_array(b) == Some((n, start)),
                None => false,
            },
        decreases n - i,
    {
        skip_segment(d)?;
        i += 1;
    }
    Some(())
}

/// Reads the purged ranges.
fn read_gaps(d: &mut Reader) -> (r: Option<Vec<AuditDiscontinuity>>)
    ensures
        match take_key(old(d).rest(), "purge_ranges"@) {
            Some(b) => match take_array(b) {
                Some((n, b)) => match gaps_at(Seq::empty(), b, n as nat) {
                    Some((gaps, t)) => r is Some && views((r->0)@) == gaps && final(d).rest() == t,
                    None => r is None,
                },
                None => r is None,
            },
            None => r is None,
        },
{
    d.key("purge_ranges")?;
    let n: u64 = d.array()?;
    let ghost start = d.rest();
    let mut out: Vec<AuditDiscontinuity> = Vec::new();
    let mut i: u64 = 0;
    assert(views(out@) =~= Seq::empty());
    while i < n
        invariant
            i <= n,
            gaps_at(Seq::empty(), start, n as nat) == gaps_at(
                views(out@),
                d.rest(),
                (n - i) as nat,
            ),
            match take_key(old(d).rest(), "purge_ranges"@) {
                Some(b) => take_array(b) == Some((n, start)),
                None => false,
            },
        decreases n - i,
    {
        let ghost before = out@;
        let gap = read_gap(d)?;
        out.push(gap);
        assert(views(out@) =~= views(before).push(gap@));
        i += 1;
    }
    Some(out)
}

/// Reads the purged ranges out of a whole manifest.
fn read_purges(input: &[u8], device: &[u8; 16], generation: u64) -> (r: Option<
    Vec<AuditDiscontinuity>,
>)
    ensures
        match purges_of(input@, *device, generation) {
            Some(gaps) => r is Some && views((r->0)@) == gaps,
            None => r is None,
        },
{
    let mut d = Reader::new(input);
    read_head(&mut d, device, generation)?;
    skip_segments(&mut d)?;
    let gaps = read_gaps(&mut d)?;
    if d.at_end() {
        Some(gaps)
    } else {
        None
    }
}

/// Reads the purged ranges out of the manifest of a generation.
pub fn decode_manifest_purges(input: &[u8], device: &[u8; 16], generation: u64) -> (r: Result<
    Vec<AuditDiscontinuity>,
    HumanCommitError,
>)
    ensures
        match purges_of(input@, *device, generation) {
            Some(gaps) => r is Ok && views((r->Ok_0)@) == gaps,
            None => r is Err && r->Err_0 is Integrity,
        },
{
    match read_purges(input, device, generation) {
        Some(gaps) => Ok(gaps),
        None => Err(HumanCommitError::Integrity),
    }
}

/// Whether two lists of purged ranges are the same.
fn same_gaps(a: &Vec<AuditDiscontinuity>, b: &Vec<AuditDiscontinuity>) -> (r: bool)
    ensures
        r == (views(a@) == views(b@)),
{
    if a.len() != b.len() {
        assert(views(a@).len() != views(b@).len());
        return false;
    }
    let mut i: usize = 0;
    while i < a.len()
        invariant
            i <= a@.len(),
            a@.len() == b@.len(),
            forall|j: int| 0 <= j < i ==> views(a@)[j] == views(b@)[j],
        decreases a@.len() - i,
    {
        let (x, y) = (&a[i], &b[i]);
        assert(x@ == views(a@)[i as int] && y@ == views(b@)[i as int]);
        if x.first_seq() != y.first_seq() || x.last_seq() != y.last_seq() || !same_array(
            x.purge_event_id(),
            y.purge_event_id(),
        ) {
            return false;
        }
        i += 1;
    }
    assert(views(a@) =~= views(b@));
    true
}

/// Whether a manifest is that of the stored segments and purged ranges.
pub open spec fn manifest_valid(b: Seq<u8>, m: ManifestModel) -> bool {
    b == manifest_bytes(m) && purges_of(b, m.device, m.generation) == Some(m.purges)
}

/// Checks an opened manifest against the stored segments and purged ranges.
pub fn verify_manifest(plaintext: &[u8], stored: &Manifest) -> (r: Result<
    Vec<AuditDiscontinuity>,
    HumanCommitError,
>)
    ensures
        if manifest_valid(plaintext@, stored@) {
            r is Ok && views((r->Ok_0)@) == stored@.purges
        } else {
            r is Err && r->Err_0 is Integrity
        },
{
    if !same(plaintext, encode_manifest(stored).as_slice()) {
        return Err(HumanCommitError::Integrity);
    }
    let gaps = decode_manifest_purges(plaintext, &stored.device, stored.generation)?;
    if same_gaps(&gaps, &stored.purges) {
        Ok(gaps)
    } else {
        Err(HumanCommitError::Integrity)
    }
}

/// A segment as the database stores it.
pub struct SegmentRow {
    pub segment_id: Vec<u8>,
    pub first_seq: i64,
    pub last_seq: i64,
    pub previous_hash: Vec<u8>,
    pub last_hash: Vec<u8>,
    pub record_hashes: Vec<Vec<u8>>,
}

/// The segment of a row.
pub open spec fn segment_of(row: SegmentRow) -> Option<SegmentModel> {
    if row.first_seq >= 0 && row.last_seq >= 0 {
        Some(
            SegmentModel {
                segment_id: row.segment_id@,
                first_seq: row.first_seq as u64,
                last_seq: row.last_seq as u64,
                previous_hash: row.previous_hash@,
                last_hash: row.last_hash@,
                record_hashes: views(row.record_hashes@),
            },
        )
    } else {
        None
    }
}

/// Takes a segment from its row.
pub fn read_segment(row: SegmentRow) -> (r: Result<ManifestSegment, HumanCommitError>)
    ensures
        match segment_of(row) {
            Some(m) => r is Ok && (r->Ok_0)@ == m,
            None => r is Err && r->Err_0 is Integrity,
        },
{
    if row.first_seq < 0 || row.last_seq < 0 {
        return Err(HumanCommitError::Integrity);
    }
    Ok(
        ManifestSegment {
            segment_id: row.segment_id,
            first_seq: row.first_seq as u64,
            last_seq: row.last_seq as u64,
            previous_hash: row.previous_hash,
            last_hash: row.last_hash,
            record_hashes: row.record_hashes,
        },
    )
}

/// Takes the end of the generation before from its row.
pub fn read_previous(row: Option<(i64, Vec<u8>)>) -> (r: Result<
    Option<PreviousGeneration>,
    HumanCommitError,
>)
    ensures
        match row {
            Some((generation, hash)) => if generation >= 0 {
                r is Ok && previous_view(r->Ok_0) == Some(
                    PreviousModel { generation: generation as u64, last_hash: hash@ },
                )
            } else {
                r is Err && r->Err_0 is Integrity
            },
            None => r is Ok && r->Ok_0 is None,
        },
{
    match row {
        Some((generation, last_hash)) => if generation < 0 {
            Err(HumanCommitError::Integrity)
        } else {
            Ok(Some(PreviousGeneration { generation: generation as u64, last_hash }))
        },
        None => Ok(None),
    }
}

/// Whether identifiers and hashes have their sizes and the generation before
/// is an earlier one.
pub open spec fn well_formed(m: ManifestModel) -> bool {
    &&& m.previous_generation is Some ==> m.previous_generation->0.generation < m.generation
        && m.previous_generation->0.last_hash.len() == 32
    &&& forall|i: int| 0 <= i < m.segments.len() ==> sized(#[trigger] m.segments[i])
}

/// Whether the identifier and the hashes of a segment have their sizes.
pub open spec fn sized(s: SegmentModel) -> bool {
    &&& s.segment_id.len() == 16
    &&& s.previous_hash.len() == 32
    &&& s.last_hash.len() == 32
    &&& forall|i: int| 0 <= i < s.record_hashes.len()
        ==> (#[trigger] s.record_hashes[i]).len() == 32
}

/// A written list of hashes is passed over.
proof fn lemma_hashes(v: Seq<Seq<u8>>, t: Seq<u8>)
    requires
        hashes_tail(v, t).len() <= u64::MAX,
        forall|i: int| 0 <= i < v.len() ==> (#[trigger] v[i]).len() == 32,
    ensures
        hashes_after(hashes_tail(v, t), v.len()) == Some(t),
        t.len() + v.len() <= hashes_tail(v, t).len(),
    decreases v.len(),
{
    if v.len() > 0 {
        let u = hashes_tail(v.skip(1), t);
        lemma_bytes_within(v[0], u);
        lemma_bytes_len(v[0]);
        assert forall|i: int| 0 <= i < v.skip(1).len() implies (#[trigger] v.skip(1)[i]).len()
            == 32 by {
            assert(v.skip(1)[i] == v[i + 1]);
        }
        lemma_hashes(v.skip(1), t);
    }
}

/// A written segment is passed over.
proof fn lemma_segment(m: SegmentModel, t: Seq<u8>)
    requires
        segment_then(m, t).len() <= u64::MAX,
        sized(m),
    ensures
        segment_after(segment_then(m, t)) == Some(t),
        t.len() < segment_then(m, t).len(),
{
    let t12 = hashes_then(m.record_hashes, t);
    let t11 = text_item("record_hashes"@) + t12;
    let t10 = bytes_item(m.last_hash) + t11;
    let t9 = text_item("last_hash"@) + t10;
    let t8 = bytes_item(m.previous_hash) + t9;
    let t7 = text_item("previous_hash"@) + t8;
    let t6 = uint_item(m.last_seq) + t7;
    let t5 = text_item("last_seq"@) + t6;
    let t4 = uint_item(m.first_seq) + t5;
    let t3 = text_item("first_seq"@) + t4;
    let t2 = bytes_item(m.segment_id) + t3;
    let t1 = text_item("segment_id"@) + t2;
    let t0 = map_head(6) + t1;
    assert(t0 == segment_then(m, t));
    lemma_map(6, t1);
    lemma_text_within("segment_id"@, t2);
    lemma_bytes_within(m.segment_id, t3);
    lemma_text_within("first_seq"@, t4);
    lemma_uint(m.first_seq, t5);
    lemma_text_within("last_seq"@, t6);
    lemma_uint(m.last_seq, t7);
    lemma_text_within("previous_hash"@, t8);
    lemma_bytes_within(m.previous_hash, t9);
    lemma_text_within("last_hash"@, t10);
    lemma_bytes_within(m.last_hash, t11);
    lemma_text_within("record_hashes"@, t12);
    let u = hashes_tail(m.record_hashes, t);
    lemma_head_len(5, 6);
    lemma_hashes(m.record_hashes, t);
    lemma_array(m.record_hashes.len() as u64, u);
}

/// Written segments are passed over.
proof fn lemma_segments(v: Seq<SegmentModel>, t: Seq<u8>)
    requires
        segments_tail(v, t).len() <= u64::MAX,
        forall|i: int| 0 <= i < v.len() ==> sized(#[trigger] v[i]),
    ensures
        segments_after(segments_tail(v, t), v.len()) == Some(t),
        t.len() + v.len() <= segments_tail(v, t).len(),
    decreases v.len(),
{
    if v.len() > 0 {
        let u = segments_tail(v.skip(1), t);
        lemma_segment(v[0], u);
        assert forall|i: int| 0 <= i < v.skip(1).len() implies sized(#[trigger] v.skip(1)[i]) by {
            assert(v.skip(1)[i] == v[i + 1]);
        }
        lemma_segments(v.skip(1), t);
    }
}

/// A written purged range is read back.
proof fn lemma_gap(m: GapModel, t: Seq<u8>)
    requires
        gap_then(m, t).len() <= u64::MAX,
    ensures
        gap_at(gap_then(m, t)) == Some((m, t)),
        t.len() < gap_then(m, t).len(),
{
    let t7 = t;
    let t6 = bytes_item(m.purge_event_id@) + t7;
    let t5 = text_item("purge_event_id"@) + t6;
    let t4 = uint_item(m.last_seq) + t5;
    let t3 = text_item("last_seq"@) + t4;
    let t2 = uint_item(m.first_seq) + t3;
    let t1 = text_item("first_seq"@) + t2;
    let t0 = map_head(3) + t1;
    assert(t0 == gap_then(m, t));
    lemma_map(3, t1);
    lemma_text_within("first_seq"@, t2);
    lemma_uint(m.first_seq, t3);
    lemma_text_within("last_seq"@, t4);
    lemma_uint(m.last_seq, t5);
    lemma_text_within("purge_event_id"@, t6);
    lemma_bytes_within(m.purge_event_id@, t7);
    lemma_array_of(m.purge_event_id);
    lemma_head_len(5, 3);
}

/// Written purged ranges are read back.
proof fn lemma_gaps(before: Seq<GapModel>, v: Seq<GapModel>, t: Seq<u8>)
    requires
        gaps_tail(v, t).len() <= u64::MAX,
    ensures
        gaps_at(before, gaps_tail(v, t), v.len()) == Some((before + v, t)),
        t.len() + v.len() <= gaps_tail(v, t).len(),
    decreases v.len(),
{
    if v.len() > 0 {
        let u = gaps_tail(v.skip(1), t);
        lemma_gap(v[0], u);
        lemma_gaps(before.push(v[0]), v.skip(1), t);
        assert(before.push(v[0]) + v.skip(1) =~= before + v);
    } else {
        assert(before + v =~= before);
    }
}

/// The end of the generation before is passed over.
proof fn lemma_previous(m: Option<PreviousModel>, generation: u64, t: Seq<u8>)
    requires
        previous_then(m, t).len() <= u64::MAX,
        m is Some ==> m->0.generation < generation && m->0.last_hash.len() == 32,
    ensures
        previous_after(previous_then(m, t), generation) == Some(t),
        t.len() <= previous_then(m, t).len(),
{
    match m {
        Some(p) => {
            let t5 = t;
            let t4 = bytes_item(p.last_hash) + t5;
            let t3 = text_item("last_hash"@) + t4;
            let t2 = uint_item(p.generation) + t3;
            let t1 = text_item("generation"@) + t2;
            let t0 = map_head(2) + t1;
            assert(t0 == previous_then(m, t));
            lemma_map(2, t1);
            lemma_text_within("generation"@, t2);
            lemma_uint(p.generation, t3);
            lemma_text_within("last_hash"@, t4);
            lemma_bytes_within(p.last_hash, t5);
            lemma_map(2, t1);
            reveal(take_null);
            reveal(take_head);
        },
        None => {
            lemma_null(t);
        },
    }
}

/// The purged ranges that a manifest was written with are those it is read
/// with.
#[verifier::rlimit(40)]
pub proof fn lemma_manifest(m: ManifestModel)
    requires
        manifest_bytes(m).len() <= u64::MAX,
        well_formed(m),
    ensures
        purges_of(manifest_bytes(m), m.device, m.generation) == Some(m.purges),
        manifest_valid(manifest_bytes(m), m),
{
    let none = Seq::<u8>::empty();
    let g1 = gaps_tail(m.purges, none);
    let g0 = array_head(m.purges.len() as u64) + g1;
    let s2 = text_item("purge_ranges"@) + g0;
    let s1 = segments_tail(m.segments, s2);
    let s0 = array_head(m.segments.len() as u64) + s1;
    let t9 = text_item("segments"@) + s0;
    let t8 = previous_then(m.previous_generation, t9);
    let t7 = text_item("previous_generation"@) + t8;
    let t6 = uint_item(m.generation) + t7;
    let t5 = text_item("generation"@) + t6;
    let t4 = bytes_item(m.device@) + t5;
    let t3 = text_item("device"@) + t4;
    let t2 = uint_item(1) + t3;
    let t1 = text_item("v"@) + t2;
    let t0 = map_head(6) + t1;
    assert(t0 == manifest_bytes(m));
    lemma_map(6, t1);
    lemma_text_within("v"@, t2);
    lemma_uint(1, t3);
    lemma_text_within("device"@, t4);
    lemma_bytes_within(m.device@, t5);
    lemma_array_of(m.device);
    lemma_text_within("generation"@, t6);
    lemma_uint(m.generation, t7);
    lemma_text_within("previous_generation"@, t8);
    lemma_previous(m.previous_generation, m.generation, t9);
    lemma_text_within("segments"@, s0);
    lemma_segments(m.segments, s2);
    lemma_array(m.segments.len() as u64, s1);
    lemma_text_within("purge_ranges"@, g0);
    lemma_gaps(Seq::empty(), m.purges, none);
    lemma_array(m.purges.len() as u64, g1);
    assert(Seq::<GapModel>::empty() + m.purges =~= m.purges);
}

/// What stands in a manifest beside its gaps: the device and the generation it
/// is of, and the gaps in their order. One of another device or generation is
/// not accepted.
pub proof fn lemma_manifest_place(m: ManifestModel, device: [u8; 16], generation: u64)
    requires
        manifest_bytes(m).len() <= u64::MAX,
        well_formed(m),
    ensures
        purges_of(manifest_bytes(m), device, generation) is Some ==> device == m.device
            && generation == m.generation,
        purges_of(manifest_bytes(m), m.device, m.generation) == Some(m.purges),
{
    lemma_manifest(m);
    let t10 = gaps_then(m.purges, Seq::empty());
    let t9 = text_item("purge_ranges"@) + t10;
    let t8 = segments_then(m.segments, t9);
    let t7 = text_item("segments"@) + t8;
    let t6 = previous_then(m.previous_generation, t7);
    let t5 = text_item("previous_generation"@) + t6;
    let t4 = uint_item(m.generation) + t5;
    let t3 = text_item("generation"@) + t4;
    let t2 = bytes_item(m.device@) + t3;
    let t1 = text_item("device"@) + t2;
    let t0 = uint_item(1) + t1;
    let tv = text_item("v"@) + t0;
    assert(manifest_bytes(m) == map_head(6) + tv);
    lemma_map(6, tv);
    lemma_text_within("v"@, t0);
    lemma_uint(1, t1);
    lemma_text_within("device"@, t2);
    lemma_bytes_within(m.device@, t3);
    lemma_array_of::<16>(m.device);
    lemma_text_within("generation"@, t4);
    lemma_uint(m.generation, t5);
    lemma_text_within("previous_generation"@, t6);
}

/// A manifest with gaps is not that of one with other gaps, nor of another
/// device or generation.
pub proof fn lemma_manifest_tells(a: ManifestModel, b: ManifestModel)
    requires
        manifest_bytes(a) == manifest_bytes(b),
        manifest_bytes(a).len() <= u64::MAX,
        well_formed(a),
        well_formed(b),
    ensures
        a.device == b.device,
        a.generation == b.generation,
        a.purges == b.purges,
{
    lemma_manifest(a);
    lemma_manifest_place(b, a.device, a.generation);
}

/// A segment is read as it is stored: each number and each hash from its own
/// column, and none with a negative number.
pub proof fn lemma_segment_read(row: SegmentRow)
    ensures
        segment_of(row) is Some <==> row.first_seq >= 0 && row.last_seq >= 0,
        segment_of(row) matches Some(s) ==> {
            &&& s.segment_id == row.segment_id@
            &&& s.first_seq == row.first_seq
            &&& s.last_seq == row.last_seq
            &&& s.previous_hash == row.previous_hash@
            &&& s.last_hash == row.last_hash@
            &&& s.record_hashes.len() == row.record_hashes@.len()
            &&& forall|i: int|
                0 <= i < row.record_hashes@.len() ==> #[trigger] s.record_hashes[i]
                    == row.record_hashes@[i]@
        },
{
}

/// A manifest names an earlier generation before its own, or none.
pub proof fn lemma_previous_before(p: PreviousModel, generation: u64, t: Seq<u8>)
    requires
        previous_then(Some(p), t).len() <= u64::MAX,
        p.last_hash.len() == 32,
    ensures
        previous_after(previous_then(None, t), generation) == Some(t),
        previous_after(previous_then(Some(p), t), generation) is Some ==> p.generation
            < generation,
{
    lemma_null(t);
    let t4 = bytes_item(p.last_hash) + t;
    let t3 = text_item("last_hash"@) + t4;
    let t2 = uint_item(p.generation) + t3;
    let t1 = text_item("generation"@) + t2;
    assert(previous_then(Some(p), t) == map_head(2) + t1);
    lemma_map(2, t1);
    lemma_text_within("generation"@, t2);
    lemma_uint(p.generation, t3);
}

/// A stored manifest is accepted only where it is, byte for byte, what is written
/// of the segments and gaps that are there.
pub proof fn lemma_manifest_accepted(b: Seq<u8>, m: ManifestModel)
    requires
        well_formed(m),
        manifest_bytes(m).len() <= u64::MAX,
    ensures
        manifest_valid(b, m) <==> b == manifest_bytes(m),
{
    lemma_manifest(m);
}

} // verus!
