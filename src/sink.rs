use crate::measurement::{entry_keys, FieldValue, Measurement};
use influxdb::{Timestamp, WriteQuery};
use vstd::prelude::*;

verus! {

#[verifier::external_type_specification]
#[verifier::external_body]
pub struct ExWriteQuery(influxdb::WriteQuery);

/// The measurement name and the time in milliseconds that a write query was
/// made with.
pub uninterp spec fn query_head(q: WriteQuery) -> (Seq<char>, u64);

/// The tags that a write query holds, in the order they were added.
pub uninterp spec fn query_tags(q: WriteQuery) -> Seq<(Seq<char>, Seq<char>)>;

/// The fields that a write query holds, in the order they were added.
pub uninterp spec fn query_fields(q: WriteQuery) -> Seq<(Seq<char>, FieldValue)>;

/// Relies on influxdb::WriteQuery::new: a query with the name and a
/// millisecond timestamp, and no tags or fields.
#[verifier::external_body]
fn query_new(time_ms: u64, name: &String) -> (r: WriteQuery)
    ensures
        query_head(r) == (name@, time_ms),
        query_tags(r) == Seq::<(Seq<char>, Seq<char>)>::empty(),
        query_fields(r) == Seq::<(Seq<char>, FieldValue)>::empty(),
{
    WriteQuery::new(Timestamp::Milliseconds(time_ms as u128), name.clone())
}

/// Relies on influxdb::WriteQuery::add_tag: a text tag is pushed after the
/// others.
#[verifier::external_body]
fn query_add_tag(q: WriteQuery, key: &String, value: &String) -> (r: WriteQuery)
    ensures
        query_head(r) == query_head(q),
        query_tags(r) == query_tags(q).push((key@, value@)),
        query_fields(r) == query_fields(q),
{
    q.add_tag(key.clone(), value.clone())
}

/// Relies on influxdb::WriteQuery::add_field with an i64: a signed integer
/// field is pushed after the others.
#[verifier::external_body]
fn query_add_int(q: WriteQuery, key: &String, value: i64) -> (r: WriteQuery)
    ensures
        query_head(r) == query_head(q),
        query_tags(r) == query_tags(q),
        query_fields(r) == query_fields(q).push((key@, FieldValue::Int(value))),
{
    q.add_field(key.clone(), value)
}

/// Relies on influxdb::WriteQuery::add_field with a u64: an unsigned
/// integer field is pushed after the others.
#[verifier::external_body]
fn query_add_uint(q: WriteQuery, key: &String, value: u64) -> (r: WriteQuery)
    ensures
        query_head(r) == query_head(q),
        query_tags(r) == query_tags(q),
        query_fields(r) == query_fields(q).push((key@, FieldValue::UInt(value))),
{
    q.add_field(key.clone(), value)
}

/// Relies on influxdb::WriteQuery::add_field with a String: a text field is
/// pushed after the others.
#[verifier::external_body]
fn query_add_text(q: WriteQuery, key: &String, value: &String) -> (r: WriteQuery)
    ensures
        query_head(r) == query_head(q),
        query_tags(r) == query_tags(q),
        query_fields(r) == query_fields(q).push((key@, FieldValue::Text(*value))),
{
    q.add_field(key.clone(), value.clone())
}

/// Relies on influxdb::WriteQuery::add_field with a bool: a boolean field is
/// pushed after the others.
#[verifier::external_body]
fn query_add_flag(q: WriteQuery, key: &String, value: bool) -> (r: WriteQuery)
    ensures
        query_head(r) == query_head(q),
        query_tags(r) == query_tags(q),
        query_fields(r) == query_fields(q).push((key@, FieldValue::Flag(value))),
{
    q.add_field(key.clone(), value)
}

/// The tags of a measurement as plain text pairs.
pub open spec fn tag_pairs(tags: Seq<(String, String)>) -> Seq<(Seq<char>, Seq<char>)> {
    tags.map_values(|e: (String, String)| (e.0@, e.1@))
}

/// The fields of a measurement with their keys as plain text.
pub open spec fn field_pairs(fields: Seq<(String, FieldValue)>) -> Seq<(Seq<char>, FieldValue)> {
    fields.map_values(|e: (String, FieldValue)| (e.0@, e.1))
}

/// The write request for a measurement: its name, its time in milliseconds,
/// and all its tags and fields, in order.
pub fn to_write_query(m: &Measurement) -> (r: WriteQuery)
    ensures
        query_head(r) == (m.spec_name(), m.spec_time_ms()),
        query_tags(r) == tag_pairs(m.spec_tags()),
        query_fields(r) == field_pairs(m.spec_fields()),
        query_tags(r).map_values(|e: (Seq<char>, Seq<char>)| e.0).no_duplicates(),
        query_fields(r).map_values(|e: (Seq<char>, FieldValue)| e.0).no_duplicates(),
{
    let mut q = query_new(m.time_ms(), m.name());
    let tags = m.tags();
    let fields = m.fields();
    proof {
        assert(tag_pairs(tags@).map_values(|e: (Seq<char>, Seq<char>)| e.0) =~= entry_keys(tags@));
        assert(field_pairs(fields@).map_values(|e: (Seq<char>, FieldValue)| e.0) =~= entry_keys(
            fields@,
        ));
    }
    let mut i: usize = 0;
    while i < tags.len()
        invariant
            i <= tags@.len(),
            tags@ == m.spec_tags(),
            query_head(q) == (m.spec_name(), m.spec_time_ms()),
            query_tags(q) == tag_pairs(tags@).subrange(0, i as int),
            query_fields(q) == Seq::<(Seq<char>, FieldValue)>::empty(),
        decreases tags@.len() - i,
    {
        q = query_add_tag(q, &tags[i].0, &tags[i].1);
        proof {
            assert(tag_pairs(tags@).subrange(0, i + 1) =~= tag_pairs(tags@).subrange(
                0,
                i as int,
            ).push((tags@[i as int].0@, tags@[i as int].1@)));
        }
        i = i + 1;
    }
    proof {
        assert(tag_pairs(tags@).subrange(0, tags@.len() as int) =~= tag_pairs(tags@));
    }
    let mut j: usize = 0;
    while j < fields.len()
        invariant
            j <= fields@.len(),
            fields@ == m.spec_fields(),
            query_head(q) == (m.spec_name(), m.spec_time_ms()),
            query_tags(q) == tag_pairs(m.spec_tags()),
            query_fields(q) == field_pairs(fields@).subrange(0, j as int),
        decreases fields@.len() - j,
    {
        let key = &fields[j].0;
        q = match &fields[j].1 {
            FieldValue::Int(v) => query_add_int(q, key, *v),
            FieldValue::UInt(v) => query_add_uint(q, key, *v),
            FieldValue::Text(v) => query_add_text(q, key, v),
            FieldValue::Flag(v) => query_add_flag(q, key, *v),
        };
        proof {
            assert(field_pairs(fields@).subrange(0, j + 1) =~= field_pairs(fields@).subrange(
                0,
                j as int,
            ).push((fields@[j as int].0@, fields@[j as int].1)));
        }
        j = j + 1;
    }
    proof {
        assert(field_pairs(fields@).subrange(0, fields@.len() as int) =~= field_pairs(fields@));
    }
    q
}

} // verus!
