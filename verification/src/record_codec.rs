//! The canonical encoding of logical records.
use crate::bytes::same_str;
use crate::cbor::{
    array_head, bool_item, bytes_item, int_item, lemma_head_len, lemma_int, take_null,
    lemma_text_len, map_head, null_item, optional_bytes_item, text_item, uint_item, Reader, Writer,
    MAP, UNSIGNED,
};
use crate::content::{
    kind_name, opt_vec, private_key_format_name, source_encoding_name, totp_algorithm_name,
    Attachment, AttachmentModel, AuthModel, AuthRecord, CustomField, Destination, DestinationModel,
    FieldModel, HumanMetadata, HumanModel, LogicalValue, PrivateKeyFormat, RecordKind,
    SourceEncoding, SourceField, SourceFieldModel, TotpAlgorithm, ValueModel,
};
use crate::views::views;
use vstd::prelude::*;
use vstd::slice::slice_to_vec;

verus! {

/// The items of a list of texts, followed by `t`.
pub open spec fn strings_tail(v: Seq<Seq<char>>, t: Seq<u8>) -> Seq<u8>
    decreases v.len(),
{
    if v.len() == 0 {
        t
    } else {
        text_item(v[0]) + strings_tail(v.skip(1), t)
    }
}

/// A list of texts, followed by `t`.
pub open spec fn strings_then(v: Seq<Seq<char>>, t: Seq<u8>) -> Seq<u8> {
    array_head(v.len() as u64) + strings_tail(v, t)
}

/// Every list item takes at least one byte.
proof fn lemma_strings_len(v: Seq<Seq<char>>, t: Seq<u8>)
    ensures
        strings_tail(v, t).len() >= v.len() + t.len(),
    decreases v.len(),
{
    if v.len() > 0 {
        lemma_strings_len(v.skip(1), t);
        lemma_text_len(v[0]);
    }
}

/// Appends a list of texts.
pub fn put_strings(w: &mut Writer, values: &Vec<String>)
    ensures
        forall|t: Seq<u8>|
            #![trigger old(w)@ + strings_then(views(values@), t)]
            final(w)@ + t == old(w)@ + strings_then(views(values@), t),
{
    let ghost start = w@;
    let ghost all = views(values@);
    w.array(values.len() as u64);
    let mut i: usize = 0;
    assert(all.skip(0) =~= all);
    while i < values.len()
        invariant
            i <= values@.len(),
            all == views(values@),
            forall|t: Seq<u8>|
                #![trigger start + strings_then(all, t)]
                w@ + strings_tail(all.skip(i as int), t) == start + strings_then(all, t),
        decreases values@.len() - i,
    {
        assert(all.skip(i as int).skip(1) =~= all.skip(i + 1));
        assert(all.skip(i as int)[0] == all[i as int]);
        assert forall|t: Seq<u8>| #![trigger start + strings_then(all, t)] w@
            + (text_item(all[i as int]) + strings_tail(all.skip(i + 1), t))
            == start + strings_then(all, t) by {
        }
        w.str(&values[i]);
        i += 1;
    }
    assert(all.skip(i as int) =~= Seq::empty());
}

/// Reads a list of texts.
pub(crate) fn take_strings(d: &mut Reader) -> (r: Option<Vec<String>>)
    ensures
        forall|v: Seq<Seq<char>>, t: Seq<u8>|
            #![trigger strings_then(v, t)]
            old(d).rest() == strings_then(v, t) ==> r is Some && views((r->0)@) == v
                && final(d).rest()
                == t,
{
    let ghost rest0 = d.rest();
    assert forall|v: Seq<Seq<char>>, t: Seq<u8>| #![trigger strings_then(v, t)] rest0
        == strings_then(
        v,
        t,
    ) implies v.len() <= u64::MAX by {
        lemma_strings_len(v, t);
        d.lemma_rest_len();
    }
    let n: u64 = d.array()?;
    let mut out: Vec<String> = Vec::new();
    let mut i: u64 = 0;
    assert forall|v: Seq<Seq<char>>, t: Seq<u8>| #![trigger strings_then(v, t)] rest0
        == strings_then(
        v,
        t,
    ) implies v.skip(0) == v && v.take(0) == views(out@) by {
        assert(v.skip(0) =~= v);
        assert(v.take(0) =~= views(out@));
    }
    while i < n
        invariant
            i <= n,
            out@.len() == i,
            rest0 == old(d).rest(),
            forall|v: Seq<Seq<char>>, t: Seq<u8>|
                #![trigger strings_then(v, t)]
                rest0 == strings_then(v, t) ==> v.len() == n && views(out@) == v.take(i as int)
                    && d.rest() == strings_tail(v.skip(i as int), t),
        decreases n - i,
    {
        let ghost before = out@;
        let ghost at = d.rest();
        assert forall|v: Seq<Seq<char>>, t: Seq<u8>| #![trigger strings_then(v, t)] rest0
            == strings_then(v, t) implies at == (text_item(v[i as int])
                + strings_tail(v.skip(i + 1), t)) by {
            assert(v.skip(i as int).skip(1) =~= v.skip(i + 1));
            assert(v.skip(i as int)[0] == v[i as int]);
        }
        let x = d.str()?.to_owned();
        out.push(x);
        assert forall|v: Seq<Seq<char>>, t: Seq<u8>| #![trigger strings_then(v, t)] rest0
            == strings_then(v, t) implies views(out@) == v.take(i + 1) by {
            assert(views(before) == v.take(i as int));
            assert(x@ == v[i as int]);
            assert forall|j: int| 0 <= j < i implies views(out@)[j] == v.take(i + 1)[j] by {
                assert(views(before)[j] == v.take(i as int)[j]);
            }
            assert(views(out@) =~= v.take(i + 1));
        }
        i += 1;
    }
    assert forall|v: Seq<Seq<char>>, t: Seq<u8>| #![trigger strings_then(v, t)] rest0
        == strings_then(
        v,
        t,
    ) implies v.take(i as int) == v && v.skip(i as int) == Seq::<Seq<char>>::empty() by {
        assert(v.take(i as int) =~= v);
        assert(v.skip(i as int) =~= Seq::empty());
    }
    Some(out)
}

/// The items of a list of destination indices, followed by `t`.
pub open spec fn refs_tail(v: Seq<u16>, t: Seq<u8>) -> Seq<u8>
    decreases v.len(),
{
    if v.len() == 0 {
        t
    } else {
        uint_item(v[0] as u64) + refs_tail(v.skip(1), t)
    }
}

/// A list of destination indices, followed by `t`.
pub open spec fn refs_then(v: Seq<u16>, t: Seq<u8>) -> Seq<u8> {
    array_head(v.len() as u64) + refs_tail(v, t)
}

/// Every list item takes at least one byte.
proof fn lemma_refs_len(v: Seq<u16>, t: Seq<u8>)
    ensures
        refs_tail(v, t).len() >= v.len() + t.len(),
    decreases v.len(),
{
    if v.len() > 0 {
        lemma_refs_len(v.skip(1), t);
        lemma_head_len(UNSIGNED, v[0] as u64);
    }
}

/// Appends a list of destination indices.
pub fn put_refs(w: &mut Writer, values: &Vec<u16>)
    ensures
        forall|t: Seq<u8>|
            #![trigger old(w)@ + refs_then(values@, t)]
            final(w)@ + t == old(w)@ + refs_then(values@, t),
{
    let ghost start = w@;
    let ghost all = values@;
    w.array(values.len() as u64);
    let mut i: usize = 0;
    assert(all.skip(0) =~= all);
    while i < values.len()
        invariant
            i <= values@.len(),
            all == values@,
            forall|t: Seq<u8>|
                #![trigger start + refs_then(all, t)]
                w@ + refs_tail(all.skip(i as int), t) == start + refs_then(all, t),
        decreases values@.len() - i,
    {
        assert(all.skip(i as int).skip(1) =~= all.skip(i + 1));
        assert(all.skip(i as int)[0] == all[i as int]);
        assert forall|t: Seq<u8>| #![trigger start + refs_then(all, t)] w@
            + (uint_item(all[i as int] as u64) + refs_tail(all.skip(i + 1), t))
            == start + refs_then(all, t) by {
        }
        w.u16(values[i]);
        i += 1;
    }
    assert(all.skip(i as int) =~= Seq::empty());
}

/// Reads a list of destination indices.
pub(crate) fn take_refs(d: &mut Reader) -> (r: Option<Vec<u16>>)
    ensures
        forall|v: Seq<u16>, t: Seq<u8>|
            #![trigger refs_then(v, t)]
            old(d).rest() == refs_then(v, t) ==> r is Some && (r->0)@ == v && final(d).rest()
                == t,
{
    let ghost rest0 = d.rest();
    assert forall|v: Seq<u16>, t: Seq<u8>| #![trigger refs_then(v, t)] rest0 == refs_then(
        v,
        t,
    ) implies v.len() <= u64::MAX by {
        lemma_refs_len(v, t);
        d.lemma_rest_len();
    }
    let n: u64 = d.array()?;
    let mut out: Vec<u16> = Vec::new();
    let mut i: u64 = 0;
    assert forall|v: Seq<u16>, t: Seq<u8>| #![trigger refs_then(v, t)] rest0 == refs_then(
        v,
        t,
    ) implies v.skip(0) == v && v.take(0) == out@ by {
        assert(v.skip(0) =~= v);
        assert(v.take(0) =~= out@);
    }
    while i < n
        invariant
            i <= n,
            out@.len() == i,
            rest0 == old(d).rest(),
            forall|v: Seq<u16>, t: Seq<u8>|
                #![trigger refs_then(v, t)]
                rest0 == refs_then(v, t) ==> v.len() == n && out@ == v.take(i as int)
                    && d.rest() == refs_tail(v.skip(i as int), t),
        decreases n - i,
    {
        let ghost before = out@;
        let ghost at = d.rest();
        assert forall|v: Seq<u16>, t: Seq<u8>| #![trigger refs_then(v, t)] rest0
            == refs_then(v, t) implies at == (uint_item(v[i as int] as u64)
                + refs_tail(v.skip(i + 1), t)) by {
            assert(v.skip(i as int).skip(1) =~= v.skip(i + 1));
            assert(v.skip(i as int)[0] == v[i as int]);
        }
        let x: u16 = d.u16()?;
        out.push(x);
        assert forall|v: Seq<u16>, t: Seq<u8>| #![trigger refs_then(v, t)] rest0
            == refs_then(v, t) implies out@ == v.take(i + 1) by {
            assert(before == v.take(i as int));
            assert(x == v[i as int]);
            assert forall|j: int| 0 <= j < i implies out@[j] == v.take(i + 1)[j] by {
                assert(before[j] == v.take(i as int)[j]);
            }
            assert(out@ =~= v.take(i + 1));
        }
        i += 1;
    }
    assert forall|v: Seq<u16>, t: Seq<u8>| #![trigger refs_then(v, t)] rest0 == refs_then(
        v,
        t,
    ) implies v.take(i as int) == v && v.skip(i as int) == Seq::<u16>::empty() by {
        assert(v.take(i as int) =~= v);
        assert(v.skip(i as int) =~= Seq::empty());
    }
    Some(out)
}

/// A destination, followed by `t`.
pub open spec fn destination_then(m: DestinationModel, t: Seq<u8>) -> Seq<u8> {
    map_head(2) + (text_item("label"@) + (text_item(m.label) + (text_item("value"@)
        + (text_item(m.value) + t))))
}

/// Appends a destination.
pub fn put_destination(w: &mut Writer, x: &Destination)
    ensures
        forall|t: Seq<u8>|
            #![trigger old(w)@ + destination_then(x@, t)]
            final(w)@ + t == old(w)@ + destination_then(x@, t),
{
    w.map(2);
    w.str("label");
    w.str(x.label.as_str());
    w.str("value");
    w.str(x.value.as_str());
}

/// Reads a destination.
pub(crate) fn take_destination(d: &mut Reader) -> (r: Option<Destination>)
    ensures
        forall|m: DestinationModel, t: Seq<u8>|
            #![trigger destination_then(m, t)]
            old(d).rest() == destination_then(m, t) ==> r is Some && (r->0)@ == m
                && final(d).rest() == t,
{
    d.map_of(2)?;
    d.key("label")?;
    let label = d.str()?.to_owned();
    d.key("value")?;
    let value = d.str()?.to_owned();
    Some(Destination { label, value })
}

/// A destination takes at least one byte.
proof fn lemma_destination_len(m: DestinationModel, t: Seq<u8>)
    ensures
        destination_then(m, t).len() >= 1 + t.len(),
{
    lemma_head_len(MAP, 2);
}

/// The items of a list of destinations, followed by `t`.
pub open spec fn destinations_tail(v: Seq<DestinationModel>, t: Seq<u8>) -> Seq<u8>
    decreases v.len(),
{
    if v.len() == 0 {
        t
    } else {
        destination_then(v[0], destinations_tail(v.skip(1), t))
    }
}

/// A list of destinations, followed by `t`.
pub open spec fn destinations_then(v: Seq<DestinationModel>, t: Seq<u8>) -> Seq<u8> {
    array_head(v.len() as u64) + destinations_tail(v, t)
}

/// Every list item takes at least one byte.
proof fn lemma_destinations_len(v: Seq<DestinationModel>, t: Seq<u8>)
    ensures
        destinations_tail(v, t).len() >= v.len() + t.len(),
    decreases v.len(),
{
    if v.len() > 0 {
        lemma_destinations_len(v.skip(1), t);
        lemma_destination_len(v[0], destinations_tail(v.skip(1), t));
    }
}

/// Appends a list of destinations.
pub fn put_destinations(w: &mut Writer, values: &Vec<Destination>)
    ensures
        forall|t: Seq<u8>|
            #![trigger old(w)@ + destinations_then(views(values@), t)]
            final(w)@ + t == old(w)@ + destinations_then(views(values@), t),
{
    let ghost start = w@;
    let ghost all = views(values@);
    w.array(values.len() as u64);
    let mut i: usize = 0;
    assert(all.skip(0) =~= all);
    while i < values.len()
        invariant
            i <= values@.len(),
            all == views(values@),
            forall|t: Seq<u8>|
                #![trigger start + destinations_then(all, t)]
                w@ + destinations_tail(all.skip(i as int), t) == start + destinations_then(all, t),
        decreases values@.len() - i,
    {
        assert(all.skip(i as int).skip(1) =~= all.skip(i + 1));
        assert(all.skip(i as int)[0] == all[i as int]);
        assert forall|t: Seq<u8>| #![trigger start + destinations_then(all, t)] w@
            + destination_then(all[i as int], destinations_tail(all.skip(i + 1), t))
            == start + destinations_then(all, t) by {
        }
        put_destination(w, &values[i]);
        i += 1;
    }
    assert(all.skip(i as int) =~= Seq::empty());
}

/// Reads a list of destinations.
pub(crate) fn take_destinations(d: &mut Reader) -> (r: Option<Vec<Destination>>)
    ensures
        forall|v: Seq<DestinationModel>, t: Seq<u8>|
            #![trigger destinations_then(v, t)]
            old(d).rest() == destinations_then(v, t) ==> r is Some && views((r->0)@) == v
                && final(d).rest()
                == t,
{
    let ghost rest0 = d.rest();
    assert forall|v: Seq<DestinationModel>, t: Seq<u8>| #![trigger destinations_then(v, t)] rest0
        == destinations_then(
        v,
        t,
    ) implies v.len() <= u64::MAX by {
        lemma_destinations_len(v, t);
        d.lemma_rest_len();
    }
    let n: u64 = d.array()?;
    let mut out: Vec<Destination> = Vec::new();
    let mut i: u64 = 0;
    assert forall|v: Seq<DestinationModel>, t: Seq<u8>| #![trigger destinations_then(v, t)] rest0
        == destinations_then(
        v,
        t,
    ) implies v.skip(0) == v && v.take(0) == views(out@) by {
        assert(v.skip(0) =~= v);
        assert(v.take(0) =~= views(out@));
    }
    while i < n
        invariant
            i <= n,
            out@.len() == i,
            rest0 == old(d).rest(),
            forall|v: Seq<DestinationModel>, t: Seq<u8>|
                #![trigger destinations_then(v, t)]
                rest0 == destinations_then(v, t) ==> v.len() == n && views(out@) == v.take(i as int)
                    && d.rest() == destinations_tail(v.skip(i as int), t),
        decreases n - i,
    {
        let ghost before = out@;
        let ghost at = d.rest();
        assert forall|v: Seq<DestinationModel>, t: Seq<u8>| #![trigger destinations_then(v,
            t)] rest0
            == destinations_then(v, t) implies at == destination_then(v[i as int],
                destinations_tail(v.skip(i + 1), t)) by {
            assert(v.skip(i as int).skip(1) =~= v.skip(i + 1));
            assert(v.skip(i as int)[0] == v[i as int]);
        }
        let x = take_destination(d)?;
        out.push(x);
        assert forall|v: Seq<DestinationModel>, t: Seq<u8>| #![trigger destinations_then(v,
            t)] rest0
            == destinations_then(v, t) implies views(out@) == v.take(i + 1) by {
            assert(views(before) == v.take(i as int));
            assert(x@ == v[i as int]);
            assert forall|j: int| 0 <= j < i implies views(out@)[j] == v.take(i + 1)[j] by {
                assert(views(before)[j] == v.take(i as int)[j]);
            }
            assert(views(out@) =~= v.take(i + 1));
        }
        i += 1;
    }
    assert forall|v: Seq<DestinationModel>, t: Seq<u8>| #![trigger destinations_then(v, t)] rest0
        == destinations_then(
        v,
        t,
    ) implies v.take(i as int) == v && v.skip(i as int) == Seq::<DestinationModel>::empty() by {
        assert(v.take(i as int) =~= v);
        assert(v.skip(i as int) =~= Seq::empty());
    }
    Some(out)
}

/// The stored name of the encoding of a field value.
pub open spec fn value_encoding_name(value: ValueModel) -> Seq<char> {
    match value {
        ValueModel::Text(_) => "utf8"@,
        ValueModel::Bytes(_) => "bytes"@,
    }
}

/// The value of a custom field.
pub open spec fn value_item(value: ValueModel) -> Seq<u8> {
    match value {
        ValueModel::Text(s) => text_item(s),
        ValueModel::Bytes(s) => bytes_item(s),
    }
}

/// A custom field, followed by `t`.
pub open spec fn field_then(m: FieldModel, t: Seq<u8>) -> Seq<u8> {
    map_head(5) + (text_item("id"@) + (bytes_item(m.id@) + (text_item("label"@)
        + (text_item(m.label) + (text_item("encoding"@) + (text_item(value_encoding_name(m.value))
        + (text_item("value"@) + (value_item(m.value) + (text_item("concealed"@)
        + (bool_item(m.concealed) + t))))))))))
}

/// Appends a custom field.
pub fn put_field(w: &mut Writer, x: &CustomField)
    ensures
        forall|t: Seq<u8>|
            #![trigger old(w)@ + field_then(x@, t)]
            final(w)@ + t == old(w)@ + field_then(x@, t),
{
    w.map(5);
    w.str("id");
    w.bytes(&x.id);
    w.str("label");
    w.str(x.label.as_str());
    w.str("encoding");
    w.str(match x.value {
            LogicalValue::Text(_) => "utf8",
            LogicalValue::Bytes(_) => "bytes",
        });
    w.str("value");
    match &x.value {
            LogicalValue::Text(v) => w.str(v.as_str()),
            LogicalValue::Bytes(v) => w.bytes(v.as_slice()),
        }
    w.str("concealed");
    w.bool(x.concealed);
}

/// Reads a custom field.
pub(crate) fn take_field(d: &mut Reader) -> (r: Option<CustomField>)
    ensures
        forall|m: FieldModel, t: Seq<u8>|
            #![trigger field_then(m, t)]
            old(d).rest() == field_then(m, t) ==> r is Some && (r->0)@ == m && final(d).rest() == t,
{
    proof {
        reveal_strlit("utf8");
        reveal_strlit("bytes");
        assert("utf8"@[0] != "bytes"@[0]);
    }
    d.map_of(5)?;
    d.key("id")?;
    let id = d.fixed16()?;
    d.key("label")?;
    let label = d.str()?.to_owned();
    d.key("encoding")?;
    let encoding = d.str()?;
    d.key("value")?;
    let value = if same_str(encoding, "utf8") {
        LogicalValue::Text(d.str()?.to_owned())
    } else if same_str(encoding, "bytes") {
        LogicalValue::Bytes(slice_to_vec(d.bytes()?))
    } else {
        return None;
    };
    d.key("concealed")?;
    let concealed = d.bool()?;
    Some(CustomField { id, label, value, concealed })
}

/// A custom field takes at least one byte.
proof fn lemma_field_len(m: FieldModel, t: Seq<u8>)
    ensures
        field_then(m, t).len() >= 1 + t.len(),
{
    lemma_head_len(MAP, 5);
}

/// The items of a list of custom fields, followed by `t`.
pub open spec fn fields_tail(v: Seq<FieldModel>, t: Seq<u8>) -> Seq<u8>
    decreases v.len(),
{
    if v.len() == 0 {
        t
    } else {
        field_then(v[0], fields_tail(v.skip(1), t))
    }
}

/// A list of custom fields, followed by `t`.
pub open spec fn fields_then(v: Seq<FieldModel>, t: Seq<u8>) -> Seq<u8> {
    array_head(v.len() as u64) + fields_tail(v, t)
}

/// Every list item takes at least one byte.
proof fn lemma_fields_len(v: Seq<FieldModel>, t: Seq<u8>)
    ensures
        fields_tail(v, t).len() >= v.len() + t.len(),
    decreases v.len(),
{
    if v.len() > 0 {
        lemma_fields_len(v.skip(1), t);
        lemma_field_len(v[0], fields_tail(v.skip(1), t));
    }
}

/// Appends a list of custom fields.
pub fn put_fields(w: &mut Writer, values: &Vec<CustomField>)
    ensures
        forall|t: Seq<u8>|
            #![trigger old(w)@ + fields_then(views(values@), t)]
            final(w)@ + t == old(w)@ + fields_then(views(values@), t),
{
    let ghost start = w@;
    let ghost all = views(values@);
    w.array(values.len() as u64);
    let mut i: usize = 0;
    assert(all.skip(0) =~= all);
    while i < values.len()
        invariant
            i <= values@.len(),
            all == views(values@),
            forall|t: Seq<u8>|
                #![trigger start + fields_then(all, t)]
                w@ + fields_tail(all.skip(i as int), t) == start + fields_then(all, t),
        decreases values@.len() - i,
    {
        assert(all.skip(i as int).skip(1) =~= all.skip(i + 1));
        assert(all.skip(i as int)[0] == all[i as int]);
        assert forall|t: Seq<u8>| #![trigger start + fields_then(all, t)] w@
            + field_then(all[i as int], fields_tail(all.skip(i + 1), t))
            == start + fields_then(all, t) by {
        }
        put_field(w, &values[i]);
        i += 1;
    }
    assert(all.skip(i as int) =~= Seq::empty());
}

/// Reads a list of custom fields.
pub(crate) fn take_fields(d: &mut Reader) -> (r: Option<Vec<CustomField>>)
    ensures
        forall|v: Seq<FieldModel>, t: Seq<u8>|
            #![trigger fields_then(v, t)]
            old(d).rest() == fields_then(v, t) ==> r is Some && views((r->0)@) == v
                && final(d).rest()
                == t,
{
    let ghost rest0 = d.rest();
    assert forall|v: Seq<FieldModel>, t: Seq<u8>| #![trigger fields_then(v, t)] rest0
        == fields_then(
        v,
        t,
    ) implies v.len() <= u64::MAX by {
        lemma_fields_len(v, t);
        d.lemma_rest_len();
    }
    let n: u64 = d.array()?;
    let mut out: Vec<CustomField> = Vec::new();
    let mut i: u64 = 0;
    assert forall|v: Seq<FieldModel>, t: Seq<u8>| #![trigger fields_then(v, t)] rest0
        == fields_then(
        v,
        t,
    ) implies v.skip(0) == v && v.take(0) == views(out@) by {
        assert(v.skip(0) =~= v);
        assert(v.take(0) =~= views(out@));
    }
    while i < n
        invariant
            i <= n,
            out@.len() == i,
            rest0 == old(d).rest(),
            forall|v: Seq<FieldModel>, t: Seq<u8>|
                #![trigger fields_then(v, t)]
                rest0 == fields_then(v, t) ==> v.len() == n && views(out@) == v.take(i as int)
                    && d.rest() == fields_tail(v.skip(i as int), t),
        decreases n - i,
    {
        let ghost before = out@;
        let ghost at = d.rest();
        assert forall|v: Seq<FieldModel>, t: Seq<u8>| #![trigger fields_then(v, t)] rest0
            == fields_then(v, t) implies at == field_then(v[i as int],
                fields_tail(v.skip(i + 1), t)) by {
            assert(v.skip(i as int).skip(1) =~= v.skip(i + 1));
            assert(v.skip(i as int)[0] == v[i as int]);
        }
        let x = take_field(d)?;
        out.push(x);
        assert forall|v: Seq<FieldModel>, t: Seq<u8>| #![trigger fields_then(v, t)] rest0
            == fields_then(v, t) implies views(out@) == v.take(i + 1) by {
            assert(views(before) == v.take(i as int));
            assert(x@ == v[i as int]);
            assert forall|j: int| 0 <= j < i implies views(out@)[j] == v.take(i + 1)[j] by {
                assert(views(before)[j] == v.take(i as int)[j]);
            }
            assert(views(out@) =~= v.take(i + 1));
        }
        i += 1;
    }
    assert forall|v: Seq<FieldModel>, t: Seq<u8>| #![trigger fields_then(v, t)] rest0
        == fields_then(
        v,
        t,
    ) implies v.take(i as int) == v && v.skip(i as int) == Seq::<FieldModel>::empty() by {
        assert(v.take(i as int) =~= v);
        assert(v.skip(i as int) =~= Seq::empty());
    }
    Some(out)
}

/// A source field, followed by `t`.
pub open spec fn source_field_then(m: SourceFieldModel, t: Seq<u8>) -> Seq<u8> {
    map_head(3) + (text_item("path"@) + (text_item(m.path) + (text_item("encoding"@)
        + (text_item(source_encoding_name(m.encoding)) + (text_item("value"@)
        + (bytes_item(m.value) + t))))))
}

/// Appends a source field.
pub fn put_source_field(w: &mut Writer, x: &SourceField)
    ensures
        forall|t: Seq<u8>|
            #![trigger old(w)@ + source_field_then(x@, t)]
            final(w)@ + t == old(w)@ + source_field_then(x@, t),
{
    w.map(3);
    w.str("path");
    w.str(x.path.as_str());
    w.str("encoding");
    w.str(x.encoding.name());
    w.str("value");
    w.bytes(x.value.as_slice());
}

/// Reads a source field.
pub(crate) fn take_source_field(d: &mut Reader) -> (r: Option<SourceField>)
    ensures
        forall|m: SourceFieldModel, t: Seq<u8>|
            #![trigger source_field_then(m, t)]
            old(d).rest() == source_field_then(m, t) ==> r is Some && (r->0)@ == m
                && final(d).rest() == t,
{
    d.map_of(3)?;
    d.key("path")?;
    let path = d.str()?.to_owned();
    d.key("encoding")?;
    let encoding = SourceEncoding::parse(d.str()?)?;
    d.key("value")?;
    let value = slice_to_vec(d.bytes()?);
    Some(SourceField { path, encoding, value })
}

/// A source field takes at least one byte.
proof fn lemma_source_field_len(m: SourceFieldModel, t: Seq<u8>)
    ensures
        source_field_then(m, t).len() >= 1 + t.len(),
{
    lemma_head_len(MAP, 3);
}

/// The items of a list of source fields, followed by `t`.
pub open spec fn source_fields_tail(v: Seq<SourceFieldModel>, t: Seq<u8>) -> Seq<u8>
    decreases v.len(),
{
    if v.len() == 0 {
        t
    } else {
        source_field_then(v[0], source_fields_tail(v.skip(1), t))
    }
}

/// A list of source fields, followed by `t`.
pub open spec fn source_fields_then(v: Seq<SourceFieldModel>, t: Seq<u8>) -> Seq<u8> {
    array_head(v.len() as u64) + source_fields_tail(v, t)
}

/// Every list item takes at least one byte.
proof fn lemma_source_fields_len(v: Seq<SourceFieldModel>, t: Seq<u8>)
    ensures
        source_fields_tail(v, t).len() >= v.len() + t.len(),
    decreases v.len(),
{
    if v.len() > 0 {
        lemma_source_fields_len(v.skip(1), t);
        lemma_source_field_len(v[0], source_fields_tail(v.skip(1), t));
    }
}

/// Appends a list of source fields.
pub fn put_source_fields(w: &mut Writer, values: &Vec<SourceField>)
    ensures
        forall|t: Seq<u8>|
            #![trigger old(w)@ + source_fields_then(views(values@), t)]
            final(w)@ + t == old(w)@ + source_fields_then(views(values@), t),
{
    let ghost start = w@;
    let ghost all = views(values@);
    w.array(values.len() as u64);
    let mut i: usize = 0;
    assert(all.skip(0) =~= all);
    while i < values.len()
        invariant
            i <= values@.len(),
            all == views(values@),
            forall|t: Seq<u8>|
                #![trigger start + source_fields_then(all, t)]
                w@ + source_fields_tail(all.skip(i as int), t)
                    == start + source_fields_then(all, t),
        decreases values@.len() - i,
    {
        assert(all.skip(i as int).skip(1) =~= all.skip(i + 1));
        assert(all.skip(i as int)[0] == all[i as int]);
        assert forall|t: Seq<u8>| #![trigger start + source_fields_then(all, t)] w@
            + source_field_then(all[i as int], source_fields_tail(all.skip(i + 1), t))
            == start + source_fields_then(all, t) by {
        }
        put_source_field(w, &values[i]);
        i += 1;
    }
    assert(all.skip(i as int) =~= Seq::empty());
}

/// Reads a list of source fields.
pub(crate) fn take_source_fields(d: &mut Reader) -> (r: Option<Vec<SourceField>>)
    ensures
        forall|v: Seq<SourceFieldModel>, t: Seq<u8>|
            #![trigger source_fields_then(v, t)]
            old(d).rest() == source_fields_then(v, t) ==> r is Some && views((r->0)@) == v
                && final(d).rest()
                == t,
{
    let ghost rest0 = d.rest();
    assert forall|v: Seq<SourceFieldModel>, t: Seq<u8>| #![trigger source_fields_then(v, t)] rest0
        == source_fields_then(
        v,
        t,
    ) implies v.len() <= u64::MAX by {
        lemma_source_fields_len(v, t);
        d.lemma_rest_len();
    }
    let n: u64 = d.array()?;
    let mut out: Vec<SourceField> = Vec::new();
    let mut i: u64 = 0;
    assert forall|v: Seq<SourceFieldModel>, t: Seq<u8>| #![trigger source_fields_then(v, t)] rest0
        == source_fields_then(
        v,
        t,
    ) implies v.skip(0) == v && v.take(0) == views(out@) by {
        assert(v.skip(0) =~= v);
        assert(v.take(0) =~= views(out@));
    }
    while i < n
        invariant
            i <= n,
            out@.len() == i,
            rest0 == old(d).rest(),
            forall|v: Seq<SourceFieldModel>, t: Seq<u8>|
                #![trigger source_fields_then(v, t)]
                rest0 == source_fields_then(v, t) ==> v.len() == n
                    && views(out@) == v.take(i as int)
                    && d.rest() == source_fields_tail(v.skip(i as int), t),
        decreases n - i,
    {
        let ghost before = out@;
        let ghost at = d.rest();
        assert forall|v: Seq<SourceFieldModel>, t: Seq<u8>| #![trigger source_fields_then(v,
            t)] rest0
            == source_fields_then(v, t) implies at
                == source_field_then(v[i as int], source_fields_tail(v.skip(i + 1), t)) by {
            assert(v.skip(i as int).skip(1) =~= v.skip(i + 1));
            assert(v.skip(i as int)[0] == v[i as int]);
        }
        let x = take_source_field(d)?;
        out.push(x);
        assert forall|v: Seq<SourceFieldModel>, t: Seq<u8>| #![trigger source_fields_then(v,
            t)] rest0
            == source_fields_then(v, t) implies views(out@) == v.take(i + 1) by {
            assert(views(before) == v.take(i as int));
            assert(x@ == v[i as int]);
            assert forall|j: int| 0 <= j < i implies views(out@)[j] == v.take(i + 1)[j] by {
                assert(views(before)[j] == v.take(i as int)[j]);
            }
            assert(views(out@) =~= v.take(i + 1));
        }
        i += 1;
    }
    assert forall|v: Seq<SourceFieldModel>, t: Seq<u8>| #![trigger source_fields_then(v, t)] rest0
        == source_fields_then(
        v,
        t,
    ) implies v.take(i as int) == v && v.skip(i as int) == Seq::<SourceFieldModel>::empty() by {
        assert(v.take(i as int) =~= v);
        assert(v.skip(i as int) =~= Seq::empty());
    }
    Some(out)
}

/// Whether no attachment of a list carries content.
pub open spec fn without_content(v: Seq<AttachmentModel>) -> bool {
    forall|i: int| 0 <= i < v.len() ==> (#[trigger] v[i]).content == Seq::<u8>::empty()
}

/// The metadata of an attachment, followed by `t`.
pub open spec fn attachment_then(m: AttachmentModel, t: Seq<u8>) -> Seq<u8> {
    map_head(5) + (text_item("id"@) + (bytes_item(m.id@) + (text_item("name"@) + (text_item(m.name)
        + (text_item("mime"@) + (text_item(m.mime) + (text_item("size"@) + (uint_item(m.size)
        + (text_item("sha256"@) + (bytes_item(m.sha256@) + t))))))))))
}

/// Appends the metadata of an attachment.
pub fn put_attachment(w: &mut Writer, x: &Attachment)
    ensures
        forall|t: Seq<u8>|
            #![trigger old(w)@ + attachment_then(x@, t)]
            final(w)@ + t == old(w)@ + attachment_then(x@, t),
{
    w.map(5);
    w.str("id");
    w.bytes(x.id());
    w.str("name");
    w.str(x.name());
    w.str("mime");
    w.str(x.mime());
    w.str("size");
    w.u64(x.size());
    w.str("sha256");
    w.bytes(x.sha256());
}

/// Reads the metadata of an attachment.
pub(crate) fn take_attachment(d: &mut Reader) -> (r: Option<Attachment>)
    ensures
        forall|m: AttachmentModel, t: Seq<u8>|
            #![trigger attachment_then(m, t)]
            old(d).rest() == attachment_then(m, t) && m.content == Seq::<u8>::empty() ==> r is Some
                && (r->0)@ == m && final(d).rest() == t,
{
    d.map_of(5)?;
    d.key("id")?;
    let id = d.fixed16()?;
    d.key("name")?;
    let name = d.str()?.to_owned();
    d.key("mime")?;
    let mime = d.str()?.to_owned();
    d.key("size")?;
    let size: u64 = d.u64()?;
    d.key("sha256")?;
    let sha256 = d.fixed32()?;
    Some(Attachment::unchecked(id, name, mime, size, sha256))
}

/// The metadata of an attachment takes at least one byte.
proof fn lemma_attachment_len(m: AttachmentModel, t: Seq<u8>)
    ensures
        attachment_then(m, t).len() >= 1 + t.len(),
{
    lemma_head_len(MAP, 5);
}

/// The items of a list of attachment metadata, followed by `t`.
pub open spec fn attachments_tail(v: Seq<AttachmentModel>, t: Seq<u8>) -> Seq<u8>
    decreases v.len(),
{
    if v.len() == 0 {
        t
    } else {
        attachment_then(v[0], attachments_tail(v.skip(1), t))
    }
}

/// A list of attachment metadata, followed by `t`.
pub open spec fn attachments_then(v: Seq<AttachmentModel>, t: Seq<u8>) -> Seq<u8> {
    array_head(v.len() as u64) + attachments_tail(v, t)
}

/// Every list item takes at least one byte.
proof fn lemma_attachments_len(v: Seq<AttachmentModel>, t: Seq<u8>)
    ensures
        attachments_tail(v, t).len() >= v.len() + t.len(),
    decreases v.len(),
{
    if v.len() > 0 {
        lemma_attachments_len(v.skip(1), t);
        lemma_attachment_len(v[0], attachments_tail(v.skip(1), t));
    }
}

/// Appends a list of attachment metadata.
pub fn put_attachments(w: &mut Writer, values: &Vec<Attachment>)
    ensures
        forall|t: Seq<u8>|
            #![trigger old(w)@ + attachments_then(views(values@), t)]
            final(w)@ + t == old(w)@ + attachments_then(views(values@), t),
{
    let ghost start = w@;
    let ghost all = views(values@);
    w.array(values.len() as u64);
    let mut i: usize = 0;
    assert(all.skip(0) =~= all);
    while i < values.len()
        invariant
            i <= values@.len(),
            all == views(values@),
            forall|t: Seq<u8>|
                #![trigger start + attachments_then(all, t)]
                w@ + attachments_tail(all.skip(i as int), t) == start + attachments_then(all, t),
        decreases values@.len() - i,
    {
        assert(all.skip(i as int).skip(1) =~= all.skip(i + 1));
        assert(all.skip(i as int)[0] == all[i as int]);
        assert forall|t: Seq<u8>| #![trigger start + attachments_then(all, t)] w@
            + attachment_then(all[i as int], attachments_tail(all.skip(i + 1), t))
            == start + attachments_then(all, t) by {
        }
        put_attachment(w, &values[i]);
        i += 1;
    }
    assert(all.skip(i as int) =~= Seq::empty());
}

/// Reads a list of attachment metadata.
pub(crate) fn take_attachments(d: &mut Reader) -> (r: Option<Vec<Attachment>>)
    ensures
        forall|v: Seq<AttachmentModel>, t: Seq<u8>|
            #![trigger attachments_then(v, t)]
            old(d).rest() == attachments_then(v, t) && without_content(v) ==> r is Some
                && views((r->0)@) == v && final(d).rest()
                == t,
{
    let ghost rest0 = d.rest();
    assert forall|v: Seq<AttachmentModel>, t: Seq<u8>| #![trigger attachments_then(v, t)] rest0
        == attachments_then(
        v,
        t,
    ) implies v.len() <= u64::MAX by {
        lemma_attachments_len(v, t);
        d.lemma_rest_len();
    }
    let n: u64 = d.array()?;
    let mut out: Vec<Attachment> = Vec::new();
    let mut i: u64 = 0;
    assert forall|v: Seq<AttachmentModel>, t: Seq<u8>| #![trigger attachments_then(v, t)] rest0
        == attachments_then(
        v,
        t,
    ) implies v.skip(0) == v && v.take(0) == views(out@) by {
        assert(v.skip(0) =~= v);
        assert(v.take(0) =~= views(out@));
    }
    while i < n
        invariant
            i <= n,
            out@.len() == i,
            rest0 == old(d).rest(),
            forall|v: Seq<AttachmentModel>, t: Seq<u8>|
                #![trigger attachments_then(v, t)]
                rest0 == attachments_then(v, t) && without_content(v) ==> v.len() == n
                    && views(out@) == v.take(i as int)
                    && d.rest() == attachments_tail(v.skip(i as int), t),
        decreases n - i,
    {
        let ghost before = out@;
        let ghost at = d.rest();
        assert forall|v: Seq<AttachmentModel>, t: Seq<u8>| #![trigger attachments_then(v, t)] rest0
            == attachments_then(v, t) && without_content(v)
                implies v[i as int].content == Seq::<u8>::empty()
                && at == attachment_then(v[i as int], attachments_tail(v.skip(i + 1), t)) by {
            assert(v.skip(i as int).skip(1) =~= v.skip(i + 1));
            assert(v.skip(i as int)[0] == v[i as int]);
        }
        let x = take_attachment(d)?;
        out.push(x);
        assert forall|v: Seq<AttachmentModel>, t: Seq<u8>| #![trigger attachments_then(v, t)] rest0
            == attachments_then(v, t) && without_content(v)
                implies views(out@) == v.take(i + 1) by {
            assert(views(before) == v.take(i as int));
            assert(x@ == v[i as int]);
            assert forall|j: int| 0 <= j < i implies views(out@)[j] == v.take(i + 1)[j] by {
                assert(views(before)[j] == v.take(i as int)[j]);
            }
            assert(views(out@) =~= v.take(i + 1));
        }
        i += 1;
    }
    assert forall|v: Seq<AttachmentModel>, t: Seq<u8>| #![trigger attachments_then(v, t)] rest0
        == attachments_then(
        v,
        t,
    ) && without_content(v) implies v.take(i as int) == v
        && v.skip(i as int) == Seq::<AttachmentModel>::empty() by {
        assert(v.take(i as int) =~= v);
        assert(v.skip(i as int) =~= Seq::empty());
    }
    Some(out)
}

/// An optional instant.
pub open spec fn optional_int_item(value: Option<i64>) -> Seq<u8> {
    match value {
        Some(n) => int_item(n),
        None => null_item(),
    }
}

/// One way to authenticate, followed by `t`.
pub open spec fn auth_then(m: AuthModel, t: Seq<u8>) -> Seq<u8> {
    match m {
        AuthModel::Password { username, password, destination_refs } => map_head(4)
            + (text_item("method"@) + (text_item("password"@) + (text_item("username"@)
            + (text_item(username) + (text_item("password"@) + (bytes_item(password)
            + (text_item("destination_refs"@) + (refs_then(destination_refs, t))))))))),
        AuthModel::Totp { secret, algorithm, digits, period, t0, issuer, account,
            destination_refs } => map_head(9) + (text_item("method"@) + (text_item("totp"@)
            + (text_item("secret"@) + (bytes_item(secret) + (text_item("algorithm"@)
            + (text_item(totp_algorithm_name(algorithm)) + (text_item("digits"@)
            + (uint_item(digits as u64) + (text_item("period"@) + (uint_item(period as u64)
            + (text_item("t0"@) + (uint_item(t0) + (text_item("issuer"@) + (text_item(issuer)
            + (text_item("account"@) + (text_item(account) + (text_item("destination_refs"@)
            + (refs_then(destination_refs, t))))))))))))))))))),
        AuthModel::Passkey { rp_id, user_handle, credential_id, cose_alg, private_key, public_key,
            user_name, display_name, sign_count, backup_eligible, backup_state } => map_head(12)
            + (text_item("method"@) + (text_item("passkey"@) + (text_item("rp_id"@)
            + (text_item(rp_id) + (text_item("user_handle"@) + (bytes_item(user_handle)
            + (text_item("credential_id"@) + (bytes_item(credential_id) + (text_item("cose_alg"@)
            + (int_item(cose_alg) + (text_item("private_key"@) + (bytes_item(private_key@)
            + (text_item("public_key"@) + (bytes_item(public_key@) + (text_item("user_name"@)
            + (text_item(user_name) + (text_item("display_name"@) + (text_item(display_name)
            + (text_item("sign_count"@) + (uint_item(sign_count as u64)
            + (text_item("backup_eligible"@) + (bool_item(backup_eligible)
            + (text_item("backup_state"@) + (bool_item(backup_state) + t)))))))))))))))))))))))),
        AuthModel::Ssh { private_format, private_key, public_key, username, destination_refs,
            passphrase } => map_head(7) + (text_item("method"@) + (text_item("ssh"@)
            + (text_item("private_format"@) + (text_item(private_key_format_name(private_format))
            + (text_item("private_key"@) + (bytes_item(private_key) + (text_item("public_key"@)
            + (bytes_item(public_key) + (text_item("username"@) + (text_item(username)
            + (text_item("destination_refs"@)
            + (refs_then(destination_refs, text_item("passphrase"@)
            + (optional_bytes_item(passphrase) + t)))))))))))))),
        AuthModel::Token { secret, provider, profile_id, destination_refs,
            expires_at } => map_head(6) + (text_item("method"@) + (text_item("token"@)
            + (text_item("secret"@) + (bytes_item(secret) + (text_item("provider"@)
            + (text_item(provider) + (text_item("profile_id"@) + (text_item(profile_id)
            + (text_item("destination_refs"@)
            + (refs_then(destination_refs, text_item("expires_at"@)
            + (optional_int_item(expires_at) + t)))))))))))),
    }
}

/// Appends one way to authenticate.
pub fn put_auth(w: &mut Writer, x: &AuthRecord)
    ensures
        forall|t: Seq<u8>|
            #![trigger old(w)@ + auth_then(x@, t)]
            final(w)@ + t == old(w)@ + auth_then(x@, t),
{
    match x {
        AuthRecord::Password { username, password, destination_refs } => {
            w.map(4);
            w.str("method");
            w.str("password");
            w.str("username");
            w.str(username.as_str());
            w.str("password");
            w.bytes(password.as_slice());
            w.str("destination_refs");
            put_refs(w, destination_refs);
        },
        AuthRecord::Totp { secret, algorithm, digits, period, t0, issuer, account,
            destination_refs } => {
            w.map(9);
            w.str("method");
            w.str("totp");
            w.str("secret");
            w.bytes(secret.as_slice());
            w.str("algorithm");
            w.str(algorithm.name());
            w.str("digits");
            w.u8(*digits);
            w.str("period");
            w.u16(*period);
            w.str("t0");
            w.u64(*t0);
            w.str("issuer");
            w.str(issuer.as_str());
            w.str("account");
            w.str(account.as_str());
            w.str("destination_refs");
            put_refs(w, destination_refs);
        },
        AuthRecord::Passkey { rp_id, user_handle, credential_id, cose_alg, private_key, public_key,
            user_name, display_name, sign_count, backup_eligible, backup_state } => {
            w.map(12);
            w.str("method");
            w.str("passkey");
            w.str("rp_id");
            w.str(rp_id.as_str());
            w.str("user_handle");
            w.bytes(user_handle.as_slice());
            w.str("credential_id");
            w.bytes(credential_id.as_slice());
            w.str("cose_alg");
            w.i64(*cose_alg);
            w.str("private_key");
            w.bytes(private_key);
            w.str("public_key");
            w.bytes(public_key);
            w.str("user_name");
            w.str(user_name.as_str());
            w.str("display_name");
            w.str(display_name.as_str());
            w.str("sign_count");
            w.u32(*sign_count);
            w.str("backup_eligible");
            w.bool(*backup_eligible);
            w.str("backup_state");
            w.bool(*backup_state);
        },
        AuthRecord::Ssh { private_format, private_key, public_key, username, destination_refs,
            passphrase } => {
            w.map(7);
            w.str("method");
            w.str("ssh");
            w.str("private_format");
            w.str(private_format.name());
            w.str("private_key");
            w.bytes(private_key.as_slice());
            w.str("public_key");
            w.bytes(public_key.as_slice());
            w.str("username");
            w.str(username.as_str());
            w.str("destination_refs");
            put_refs(w, destination_refs);
            w.str("passphrase");
            match passphrase {
                            Some(value) => w.bytes(value.as_slice()),
                            None => w.null(),
                        }
        },
        AuthRecord::Token { secret, provider, profile_id, destination_refs, expires_at } => {
            w.map(6);
            w.str("method");
            w.str("token");
            w.str("secret");
            w.bytes(secret.as_slice());
            w.str("provider");
            w.str(provider.as_str());
            w.str("profile_id");
            w.str(profile_id.as_str());
            w.str("destination_refs");
            put_refs(w, destination_refs);
            w.str("expires_at");
            match expires_at {
                            Some(value) => w.i64(*value),
                            None => w.null(),
                        }
        },
    }
}

/// Reads a byte string, or nothing where the null value stands.
pub fn read_optional_bytes(d: &mut Reader) -> (r: Option<Option<Vec<u8>>>)
    ensures
        match crate::cbor::take_optional_bytes(old(d).rest()) {
            Some((m, t)) => r is Some && opt_vec(r->0) == m && final(d).rest() == t,
            None => r is None,
        },
        forall|m: Option<Seq<u8>>, t: Seq<u8>|
            #![trigger optional_bytes_item(m) + t]
            old(d).rest() == optional_bytes_item(m) + t ==> r is Some && opt_vec(r->0) == m
                && final(d).rest() == t,
        forall|m: Option<Seq<u8>>|
            old(d).rest() == #[trigger] optional_bytes_item(m) ==> r is Some && opt_vec(r->0) == m
                && final(d).rest().len() == 0,
{
    if d.is_null() {
        d.null()?;
        Some(None)
    } else {
        Some(Some(slice_to_vec(d.bytes()?)))
    }
}

/// Reads an instant, or nothing where the null value stands.
pub fn read_optional_int(d: &mut Reader) -> (r: Option<Option<i64>>)
    ensures
        forall|m: Option<i64>, t: Seq<u8>|
            #![trigger optional_int_item(m) + t]
            old(d).rest() == optional_int_item(m) + t ==> r == Some(m) && final(d).rest() == t,
        forall|m: Option<i64>|
            old(d).rest() == #[trigger] optional_int_item(m) ==> r == Some(m)
                && final(d).rest().len() == 0,
{
    proof {
        assert(d.rest() + Seq::<u8>::empty() =~= d.rest());
        assert forall|n: i64, t: Seq<u8>| #![trigger int_item(n) + t] true implies take_null(
            int_item(n) + t,
        ) is None by {
            lemma_int(n, t);
        }
    }
    if d.is_null() {
        d.null()?;
        Some(None)
    } else {
        let value: i64 = d.i64()?;
        Some(Some(value))
    }
}

/// The names of the methods are different.
proof fn lemma_methods_differ()
    ensures
        "password"@ != "totp"@,
        "password"@ != "passkey"@,
        "password"@ != "ssh"@,
        "password"@ != "token"@,
        "totp"@ != "passkey"@,
        "totp"@ != "ssh"@,
        "totp"@ != "token"@,
        "passkey"@ != "ssh"@,
        "passkey"@ != "token"@,
        "ssh"@ != "token"@,
{
    reveal_strlit("password");
    reveal_strlit("totp");
    reveal_strlit("passkey");
    reveal_strlit("ssh");
    reveal_strlit("token");
    assert("password"@.len() == 8);
    assert("totp"@.len() == 4);
    assert("passkey"@.len() == 7);
    assert("ssh"@.len() == 3);
    assert("token"@.len() == 5);
}

/// What follows the method of a password entry, followed by `t`.
pub open spec fn password_body(m: AuthModel, t: Seq<u8>) -> Seq<u8> {
    match m {
        AuthModel::Password { username, password, destination_refs } => text_item("username"@)
            + (text_item(username) + (text_item("password"@) + (bytes_item(password)
            + (text_item("destination_refs"@) + (refs_then(destination_refs, t)))))),
        _ => t,
    }
}

/// Reads what follows the method of a password entry.
fn take_password(d: &mut Reader) -> (r: Option<AuthRecord>)
    ensures
        forall|m: AuthModel, t: Seq<u8>|
            #![trigger password_body(m, t)]
            m is Password && old(d).rest() == password_body(m, t) ==> r is Some && (r->0)@ == m
                && final(d).rest() == t,
{
    d.key("username")?;
    let username = d.str()?.to_owned();
    d.key("password")?;
    let password = slice_to_vec(d.bytes()?);
    d.key("destination_refs")?;
    let destination_refs = take_refs(d)?;
    Some(AuthRecord::Password { username, password, destination_refs })
}

/// What follows the method of a totp entry, followed by `t`.
pub open spec fn totp_body(m: AuthModel, t: Seq<u8>) -> Seq<u8> {
    match m {
        AuthModel::Totp { secret, algorithm, digits, period, t0, issuer, account,
            destination_refs } => text_item("secret"@) + (bytes_item(secret)
            + (text_item("algorithm"@) + (text_item(totp_algorithm_name(algorithm))
            + (text_item("digits"@) + (uint_item(digits as u64) + (text_item("period"@)
            + (uint_item(period as u64) + (text_item("t0"@) + (uint_item(t0) + (text_item("issuer"@)
            + (text_item(issuer) + (text_item("account"@) + (text_item(account)
            + (text_item("destination_refs"@) + (refs_then(destination_refs, t)))))))))))))))),
        _ => t,
    }
}

/// Reads what follows the method of a totp entry.
fn take_totp(d: &mut Reader) -> (r: Option<AuthRecord>)
    ensures
        forall|m: AuthModel, t: Seq<u8>|
            #![trigger totp_body(m, t)]
            m is Totp && old(d).rest() == totp_body(m, t) ==> r is Some && (r->0)@ == m
                && final(d).rest() == t,
{
    d.key("secret")?;
    let secret = slice_to_vec(d.bytes()?);
    d.key("algorithm")?;
    let algorithm = TotpAlgorithm::parse(d.str()?)?;
    d.key("digits")?;
    let digits: u8 = d.u8()?;
    d.key("period")?;
    let period: u16 = d.u16()?;
    d.key("t0")?;
    let t0: u64 = d.u64()?;
    d.key("issuer")?;
    let issuer = d.str()?.to_owned();
    d.key("account")?;
    let account = d.str()?.to_owned();
    d.key("destination_refs")?;
    let destination_refs = take_refs(d)?;
    Some(AuthRecord::Totp { secret, algorithm, digits, period, t0, issuer, account,
        destination_refs })
}

/// What follows the method of a passkey entry, followed by `t`.
pub open spec fn passkey_body(m: AuthModel, t: Seq<u8>) -> Seq<u8> {
    match m {
        AuthModel::Passkey { rp_id, user_handle, credential_id, cose_alg, private_key, public_key,
            user_name, display_name, sign_count, backup_eligible,
            backup_state } => text_item("rp_id"@) + (text_item(rp_id) + (text_item("user_handle"@)
            + (bytes_item(user_handle) + (text_item("credential_id"@) + (bytes_item(credential_id)
            + (text_item("cose_alg"@) + (int_item(cose_alg) + (text_item("private_key"@)
            + (bytes_item(private_key@) + (text_item("public_key"@) + (bytes_item(public_key@)
            + (text_item("user_name"@) + (text_item(user_name) + (text_item("display_name"@)
            + (text_item(display_name) + (text_item("sign_count"@) + (uint_item(sign_count as u64)
            + (text_item("backup_eligible"@) + (bool_item(backup_eligible)
            + (text_item("backup_state"@) + (bool_item(backup_state) + t))))))))))))))))))))),
        _ => t,
    }
}

/// Reads what follows the method of a passkey entry.
fn take_passkey(d: &mut Reader) -> (r: Option<AuthRecord>)
    ensures
        forall|m: AuthModel, t: Seq<u8>|
            #![trigger passkey_body(m, t)]
            m is Passkey && old(d).rest() == passkey_body(m, t) ==> r is Some && (r->0)@ == m
                && final(d).rest() == t,
{
    d.key("rp_id")?;
    let rp_id = d.str()?.to_owned();
    d.key("user_handle")?;
    let user_handle = slice_to_vec(d.bytes()?);
    d.key("credential_id")?;
    let credential_id = slice_to_vec(d.bytes()?);
    d.key("cose_alg")?;
    let cose_alg: i64 = d.i64()?;
    d.key("private_key")?;
    let private_key = d.fixed32()?;
    d.key("public_key")?;
    let public_key = d.fixed32()?;
    d.key("user_name")?;
    let user_name = d.str()?.to_owned();
    d.key("display_name")?;
    let display_name = d.str()?.to_owned();
    d.key("sign_count")?;
    let sign_count: u32 = d.u32()?;
    d.key("backup_eligible")?;
    let backup_eligible = d.bool()?;
    d.key("backup_state")?;
    let backup_state = d.bool()?;
    Some(AuthRecord::Passkey { rp_id, user_handle, credential_id, cose_alg, private_key, public_key,
        user_name, display_name, sign_count, backup_eligible, backup_state })
}

/// What follows the method of an ssh entry, followed by `t`.
pub open spec fn ssh_body(m: AuthModel, t: Seq<u8>) -> Seq<u8> {
    match m {
        AuthModel::Ssh { private_format, private_key, public_key, username, destination_refs,
            passphrase } => text_item("private_format"@)
            + (text_item(private_key_format_name(private_format)) + (text_item("private_key"@)
            + (bytes_item(private_key) + (text_item("public_key"@) + (bytes_item(public_key)
            + (text_item("username"@) + (text_item(username) + (text_item("destination_refs"@)
            + (refs_then(destination_refs, text_item("passphrase"@)
            + (optional_bytes_item(passphrase) + t))))))))))),
        _ => t,
    }
}

/// Reads what follows the method of an ssh entry.
fn take_ssh(d: &mut Reader) -> (r: Option<AuthRecord>)
    ensures
        forall|m: AuthModel, t: Seq<u8>|
            #![trigger ssh_body(m, t)]
            m is Ssh && old(d).rest() == ssh_body(m, t) ==> r is Some && (r->0)@ == m
                && final(d).rest() == t,
{
    d.key("private_format")?;
    let private_format = PrivateKeyFormat::parse(d.str()?)?;
    d.key("private_key")?;
    let private_key = slice_to_vec(d.bytes()?);
    d.key("public_key")?;
    let public_key = slice_to_vec(d.bytes()?);
    d.key("username")?;
    let username = d.str()?.to_owned();
    d.key("destination_refs")?;
    let destination_refs = take_refs(d)?;
    d.key("passphrase")?;
    let passphrase = read_optional_bytes(d)?;
    Some(AuthRecord::Ssh { private_format, private_key, public_key, username, destination_refs,
        passphrase })
}

/// What follows the method of a token entry, followed by `t`.
pub open spec fn token_body(m: AuthModel, t: Seq<u8>) -> Seq<u8> {
    match m {
        AuthModel::Token { secret, provider, profile_id, destination_refs,
            expires_at } => text_item("secret"@) + (bytes_item(secret) + (text_item("provider"@)
            + (text_item(provider) + (text_item("profile_id"@) + (text_item(profile_id)
            + (text_item("destination_refs"@)
            + (refs_then(destination_refs, text_item("expires_at"@)
            + (optional_int_item(expires_at) + t))))))))),
        _ => t,
    }
}

/// Reads what follows the method of a token entry.
fn take_token(d: &mut Reader) -> (r: Option<AuthRecord>)
    ensures
        forall|m: AuthModel, t: Seq<u8>|
            #![trigger token_body(m, t)]
            m is Token && old(d).rest() == token_body(m, t) ==> r is Some && (r->0)@ == m
                && final(d).rest() == t,
{
    d.key("secret")?;
    let secret = slice_to_vec(d.bytes()?);
    d.key("provider")?;
    let provider = d.str()?.to_owned();
    d.key("profile_id")?;
    let profile_id = d.str()?.to_owned();
    d.key("destination_refs")?;
    let destination_refs = take_refs(d)?;
    d.key("expires_at")?;
    let expires_at = read_optional_int(d)?;
    Some(AuthRecord::Token { secret, provider, profile_id, destination_refs, expires_at })
}

/// Reads one way to authenticate.
pub(crate) fn take_auth(d: &mut Reader) -> (r: Option<AuthRecord>)
    ensures
        forall|m: AuthModel, t: Seq<u8>|
            #![trigger auth_then(m, t)]
            old(d).rest() == auth_then(m, t) ==> r is Some && (r->0)@ == m && final(d).rest() == t,
{
    let ghost rest0 = d.rest();
    proof {
        lemma_methods_differ();
    }
    let fields: u64 = d.map()?;
    if fields == 0 {
        return None;
    }
    d.key("method")?;
    let method = d.str()?;
    assert forall|m: AuthModel, t: Seq<u8>| #![trigger auth_then(m, t)] rest0 == auth_then(m, t)
        implies {
        match m {
            AuthModel::Password { .. } => fields == 4 && method@ == "password"@
                && d.rest() == password_body(m, t),
            AuthModel::Totp { .. } => fields == 9 && method@ == "totp"@
                && d.rest() == totp_body(m, t),
            AuthModel::Passkey { .. } => fields == 12 && method@ == "passkey"@
                && d.rest() == passkey_body(m, t),
            AuthModel::Ssh { .. } => fields == 7 && method@ == "ssh"@ && d.rest() == ssh_body(m, t),
            AuthModel::Token { .. } => fields == 6 && method@ == "token"@
                && d.rest() == token_body(m, t),
        }
    } by {
    }
    if same_str(method, "password") && fields == 4 {
        take_password(d)
    } else if same_str(method, "totp") && fields == 9 {
        take_totp(d)
    } else if same_str(method, "passkey") && fields == 12 {
        take_passkey(d)
    } else if same_str(method, "ssh") && fields == 7 {
        take_ssh(d)
    } else if same_str(method, "token") && fields == 6 {
        take_token(d)
    } else {
        None
    }
}

/// One way to authenticate takes at least one byte.
proof fn lemma_auth_len(m: AuthModel, t: Seq<u8>)
    ensures
        auth_then(m, t).len() >= 1 + t.len(),
{
    let n: u64 = match m {
        AuthModel::Password { .. } => 4,
        AuthModel::Totp { .. } => 9,
        AuthModel::Passkey { .. } => 12,
        AuthModel::Ssh { .. } => 7,
        AuthModel::Token { .. } => 6,
    };
    lemma_head_len(MAP, n);
    match m {
        AuthModel::Password { destination_refs, .. } => {
            lemma_refs_len(destination_refs, t);
        },
        AuthModel::Totp { destination_refs, .. } => {
            lemma_refs_len(destination_refs, t);
        },
        AuthModel::Passkey { .. } => {},
        AuthModel::Ssh { destination_refs, passphrase, .. } => {
            lemma_refs_len(
                destination_refs,
                text_item("passphrase"@) + (optional_bytes_item(passphrase) + t),
            );
        },
        AuthModel::Token { destination_refs, expires_at, .. } => {
            lemma_refs_len(
                destination_refs,
                text_item("expires_at"@) + (optional_int_item(expires_at) + t),
            );
        },
    }
}

/// The items of a list of ways to authenticate, followed by `t`.
pub open spec fn auths_tail(v: Seq<AuthModel>, t: Seq<u8>) -> Seq<u8>
    decreases v.len(),
{
    if v.len() == 0 {
        t
    } else {
        auth_then(v[0], auths_tail(v.skip(1), t))
    }
}

/// A list of ways to authenticate, followed by `t`.
pub open spec fn auths_then(v: Seq<AuthModel>, t: Seq<u8>) -> Seq<u8> {
    array_head(v.len() as u64) + auths_tail(v, t)
}

/// Every list item takes at least one byte.
proof fn lemma_auths_len(v: Seq<AuthModel>, t: Seq<u8>)
    ensures
        auths_tail(v, t).len() >= v.len() + t.len(),
    decreases v.len(),
{
    if v.len() > 0 {
        lemma_auths_len(v.skip(1), t);
        lemma_auth_len(v[0], auths_tail(v.skip(1), t));
    }
}

/// Appends a list of ways to authenticate.
pub fn put_auths(w: &mut Writer, values: &Vec<AuthRecord>)
    ensures
        forall|t: Seq<u8>|
            #![trigger old(w)@ + auths_then(views(values@), t)]
            final(w)@ + t == old(w)@ + auths_then(views(values@), t),
{
    let ghost start = w@;
    let ghost all = views(values@);
    w.array(values.len() as u64);
    let mut i: usize = 0;
    assert(all.skip(0) =~= all);
    while i < values.len()
        invariant
            i <= values@.len(),
            all == views(values@),
            forall|t: Seq<u8>|
                #![trigger start + auths_then(all, t)]
                w@ + auths_tail(all.skip(i as int), t) == start + auths_then(all, t),
        decreases values@.len() - i,
    {
        assert(all.skip(i as int).skip(1) =~= all.skip(i + 1));
        assert(all.skip(i as int)[0] == all[i as int]);
        assert forall|t: Seq<u8>| #![trigger start + auths_then(all, t)] w@
            + auth_then(all[i as int], auths_tail(all.skip(i + 1), t))
            == start + auths_then(all, t) by {
        }
        put_auth(w, &values[i]);
        i += 1;
    }
    assert(all.skip(i as int) =~= Seq::empty());
}

/// Reads a list of ways to authenticate.
pub(crate) fn take_auths(d: &mut Reader) -> (r: Option<Vec<AuthRecord>>)
    ensures
        forall|v: Seq<AuthModel>, t: Seq<u8>|
            #![trigger auths_then(v, t)]
            old(d).rest() == auths_then(v, t) ==> r is Some && views((r->0)@) == v
                && final(d).rest()
                == t,
{
    let ghost rest0 = d.rest();
    assert forall|v: Seq<AuthModel>, t: Seq<u8>| #![trigger auths_then(v, t)] rest0 == auths_then(
        v,
        t,
    ) implies v.len() <= u64::MAX by {
        lemma_auths_len(v, t);
        d.lemma_rest_len();
    }
    let n: u64 = d.array()?;
    let mut out: Vec<AuthRecord> = Vec::new();
    let mut i: u64 = 0;
    assert forall|v: Seq<AuthModel>, t: Seq<u8>| #![trigger auths_then(v, t)] rest0 == auths_then(
        v,
        t,
    ) implies v.skip(0) == v && v.take(0) == views(out@) by {
        assert(v.skip(0) =~= v);
        assert(v.take(0) =~= views(out@));
    }
    while i < n
        invariant
            i <= n,
            out@.len() == i,
            rest0 == old(d).rest(),
            forall|v: Seq<AuthModel>, t: Seq<u8>|
                #![trigger auths_then(v, t)]
                rest0 == auths_then(v, t) ==> v.len() == n && views(out@) == v.take(i as int)
                    && d.rest() == auths_tail(v.skip(i as int), t),
        decreases n - i,
    {
        let ghost before = out@;
        let ghost at = d.rest();
        assert forall|v: Seq<AuthModel>, t: Seq<u8>| #![trigger auths_then(v, t)] rest0
            == auths_then(v, t) implies at == auth_then(v[i as int],
                auths_tail(v.skip(i + 1), t)) by {
            assert(v.skip(i as int).skip(1) =~= v.skip(i + 1));
            assert(v.skip(i as int)[0] == v[i as int]);
        }
        let x = take_auth(d)?;
        out.push(x);
        assert forall|v: Seq<AuthModel>, t: Seq<u8>| #![trigger auths_then(v, t)] rest0
            == auths_then(v, t) implies views(out@) == v.take(i + 1) by {
            assert(views(before) == v.take(i as int));
            assert(x@ == v[i as int]);
            assert forall|j: int| 0 <= j < i implies views(out@)[j] == v.take(i + 1)[j] by {
                assert(views(before)[j] == v.take(i as int)[j]);
            }
            assert(views(out@) =~= v.take(i + 1));
        }
        i += 1;
    }
    assert forall|v: Seq<AuthModel>, t: Seq<u8>| #![trigger auths_then(v, t)] rest0 == auths_then(
        v,
        t,
    ) implies v.take(i as int) == v && v.skip(i as int) == Seq::<AuthModel>::empty() by {
        assert(v.take(i as int) =~= v);
        assert(v.skip(i as int) =~= Seq::empty());
    }
    Some(out)
}

/// What the owner sees of a record with the metadata of its attachments,
/// followed by `t`.
pub open spec fn human_then(
    kind: RecordKind,
    m: HumanModel,
    attachments: Seq<AttachmentModel>,
    t: Seq<u8>,
) -> Seq<u8> {
    map_head(10) + (text_item("v"@) + (uint_item(1) + (text_item("kind"@)
        + (text_item(kind_name(kind)) + (text_item("title"@) + (text_item(m.title)
        + (text_item("destinations"@) + (destinations_then(m.destinations, text_item("tags"@)
        + (strings_then(m.tags, text_item("favorite"@) + (bool_item(m.favorite)
        + (text_item("notes"@) + (text_item(m.notes) + (text_item("fields"@)
        + (fields_then(m.fields, text_item("source_fields"@)
        + (source_fields_then(m.source_fields, text_item("attachments"@)
        + (attachments_then(attachments, t)))))))))))))))))))))
}

/// Appends what the owner sees of a record.
pub fn put_human(
    w: &mut Writer,
    kind: RecordKind,
    x: &HumanMetadata,
    attachments: &Vec<Attachment>,
)
    ensures
        forall|t: Seq<u8>|
            #![trigger old(w)@ + human_then(kind, x@, views(attachments@), t)]
            final(w)@ + t == old(w)@ + human_then(kind, x@, views(attachments@), t),
{
    w.map(10);
    w.str("v");
    w.u8(1);
    w.str("kind");
    w.str(kind.name());
    w.str("title");
    w.str(x.title.as_str());
    w.str("destinations");
    put_destinations(w, &x.destinations);
    w.str("tags");
    put_strings(w, &x.tags);
    w.str("favorite");
    w.bool(x.favorite);
    w.str("notes");
    w.str(x.notes.as_str());
    w.str("fields");
    put_fields(w, &x.fields);
    w.str("source_fields");
    put_source_fields(w, &x.source_fields);
    w.str("attachments");
    put_attachments(w, attachments);
}

/// Reads what the owner sees of a record.
pub(crate) fn take_human(d: &mut Reader) -> (r: Option<
    (RecordKind, HumanMetadata, Vec<Attachment>),
>)
    ensures
        forall|kind: RecordKind, m: HumanModel, attachments: Seq<AttachmentModel>, t: Seq<u8>|
            #![trigger human_then(kind, m, attachments, t)]
            old(d).rest() == human_then(kind, m, attachments, t) && without_content(attachments)
                ==> r is Some && (r->0).0 == kind && (r->0).1@ == m && views((r->0).2@)
                == attachments && final(d).rest() == t,
{
    d.map_of(10)?;
    d.key("v")?;
    let v: u8 = d.u8()?;
    if v != 1 {
        return None;
    }
    d.key("kind")?;
    let kind = RecordKind::from_name(d.str()?)?;
    d.key("title")?;
    let title = d.str()?.to_owned();
    d.key("destinations")?;
    let destinations = take_destinations(d)?;
    d.key("tags")?;
    let tags = take_strings(d)?;
    d.key("favorite")?;
    let favorite = d.bool()?;
    d.key("notes")?;
    let notes = d.str()?.to_owned();
    d.key("fields")?;
    let fields = take_fields(d)?;
    d.key("source_fields")?;
    let source_fields = take_source_fields(d)?;
    d.key("attachments")?;
    let attachments = take_attachments(d)?;
    Some((kind, HumanMetadata { title, destinations, tags, favorite, notes, fields, source_fields },
        attachments))
}

} // verus!
