use vstd::prelude::*;

verus! {

/// A typed field value of a measurement.
#[derive(Clone, Debug, PartialEq, Eq)]
pub enum FieldValue {
    Int(i64),
    UInt(u64),
    Text(String),
    Flag(bool),
}

/// The key/value map that a sequence of entries denotes: a later entry for a
/// key replaces an earlier one.
pub open spec fn entry_map<V>(s: Seq<(String, V)>) -> Map<Seq<char>, V>
    decreases s.len(),
{
    if s.len() == 0 {
        Map::empty()
    } else {
        entry_map(s.drop_last()).insert(s.last().0@, s.last().1)
    }
}

/// The keys of a sequence of entries, in order.
pub open spec fn entry_keys<V>(s: Seq<(String, V)>) -> Seq<Seq<char>> {
    s.map_values(|e: (String, V)| e.0@)
}

/// Sets `key` to `value` in a sequence of entries: every earlier entry for
/// `key` is dropped, the others keep their order, and the new entry goes last.
pub fn upsert_entry<V>(entries: Vec<(String, V)>, key: String, value: V) -> (r: Vec<(String, V)>)
    requires
        entry_keys(entries@).no_duplicates(),
    ensures
        entry_map(r@) == entry_map(entries@).insert(key@, value),
        entry_keys(r@).no_duplicates(),
        r@.len() > 0,
        r@.last() == (key, value),
{
    let ghost orig = entries@;
    let n: usize = entries.len();
    let mut rest = entries;
    let mut out: Vec<(String, V)> = Vec::new();
    let mut i: usize = 0;
    while rest.len() > 0
        invariant
            i <= orig.len(),
            i + rest@.len() == orig.len(),
            orig.len() == n,
            rest@ == orig.subrange(i as int, orig.len() as int),
            entry_keys(orig).no_duplicates(),
            entry_map(out@) == entry_map(orig.subrange(0, i as int)).remove(key@),
            entry_keys(out@).no_duplicates(),
            forall|a: int| 0 <= a < out@.len() ==> out@[a].0@ != key@,
            forall|a: int|
                0 <= a < out@.len() ==> exists|j: int| 0 <= j < i && orig[j].0@ == #[trigger] out@[a].0@,
        decreases rest@.len(),
    {
        let e = rest.remove(0);
        proof {
            assert(e == orig[i as int]);
            let pre = orig.subrange(0, i as int);
            let next = orig.subrange(0, i + 1);
            assert(next.drop_last() =~= pre);
            assert(next.last() == e);
        }
        if e.0 != key {
            let ghost before = out@;
            proof {
                assert forall|a: int| 0 <= a < before.len() implies before[a].0@ != e.0@ by {
                    let j = choose|j: int| 0 <= j < i && orig[j].0@ == #[trigger] before[a].0@;
                    assert(entry_keys(orig)[j] == orig[j].0@);
                    assert(entry_keys(orig)[i as int] == orig[i as int].0@);
                }
            }
            out.push(e);
            proof {
                assert(out@.drop_last() =~= before);
                let pre = orig.subrange(0, i as int);
                assert(entry_map(out@) =~= entry_map(before).insert(e.0@, e.1));
                assert(entry_map(orig.subrange(0, i + 1)) =~= entry_map(pre).insert(e.0@, e.1));
                assert(entry_map(orig.subrange(0, i + 1)).remove(key@) =~= entry_map(pre).remove(
                    key@,
                ).insert(e.0@, e.1));
                assert forall|a: int, b: int|
                    0 <= a < b < entry_keys(out@).len() implies entry_keys(out@)[a] != entry_keys(
                        out@,
                    )[b] by {
                    if b == before.len() {
                        assert(entry_keys(out@)[a] == before[a].0@);
                    } else {
                        assert(entry_keys(before)[a] == entry_keys(out@)[a]);
                        assert(entry_keys(before)[b] == entry_keys(out@)[b]);
                    }
                }
                assert forall|a: int| 0 <= a < out@.len() implies exists|j: int|
                    0 <= j < i + 1 && orig[j].0@ == #[trigger] out@[a].0@ by {
                    if a == before.len() {
                        assert(orig[i as int].0@ == out@[a].0@);
                    } else {
                        assert(out@[a] == before[a]);
                    }
                }
            }
        } else {
            proof {
                let pre = orig.subrange(0, i as int);
                assert(entry_map(orig.subrange(0, i + 1)).remove(key@) =~= entry_map(pre).remove(
                    key@,
                ));
            }
        }
        i = i + 1;
    }
    proof {
        assert(orig.subrange(0, orig.len() as int) =~= orig);
    }
    let ghost before = out@;
    out.push((key, value));
    proof {
        assert(out@.drop_last() =~= before);
        assert(entry_map(out@) =~= entry_map(orig).insert(key@, value));
        assert forall|a: int, b: int|
            0 <= a < b < entry_keys(out@).len() implies entry_keys(out@)[a] != entry_keys(
                out@,
            )[b] by {
            if b == before.len() {
                assert(entry_keys(out@)[a] == before[a].0@);
            } else {
                assert(entry_keys(before)[a] == entry_keys(out@)[a]);
                assert(entry_keys(before)[b] == entry_keys(out@)[b]);
            }
        }
    }
    out
}

/// One timestamped fact for the time-series store: a name, string tags,
/// typed fields, and a time in milliseconds since the Unix epoch.
pub struct Measurement {
    name: String,
    tags: Vec<(String, String)>,
    fields: Vec<(String, FieldValue)>,
    time_ms: u64,
}

impl Measurement {
    /// Tag and field keys are unique.
    #[verifier::type_invariant]
    spec fn keys_unique(&self) -> bool {
        &&& entry_keys(self.tags@).no_duplicates()
        &&& entry_keys(self.fields@).no_duplicates()
    }

    pub closed spec fn spec_name(&self) -> Seq<char> {
        self.name@
    }

    pub closed spec fn spec_tags(&self) -> Seq<(String, String)> {
        self.tags@
    }

    pub closed spec fn spec_fields(&self) -> Seq<(String, FieldValue)> {
        self.fields@
    }

    pub closed spec fn spec_time_ms(&self) -> u64 {
        self.time_ms
    }

    /// The tags as a map from key to value.
    pub open spec fn tag_map(&self) -> Map<Seq<char>, String> {
        entry_map(self.spec_tags())
    }

    /// The fields as a map from key to value.
    pub open spec fn field_map(&self) -> Map<Seq<char>, FieldValue> {
        entry_map(self.spec_fields())
    }

    /// A measurement with no tags and no fields.
    pub fn new(name: String, time_ms: u64) -> (r: Measurement)
        ensures
            r.spec_name() == name@,
            r.spec_time_ms() == time_ms,
            r.spec_tags().len() == 0,
            r.spec_fields().len() == 0,
            r.tag_map() == Map::<Seq<char>, String>::empty(),
            r.field_map() == Map::<Seq<char>, FieldValue>::empty(),
    {
        let r = Measurement { name, tags: Vec::new(), fields: Vec::new(), time_ms };
        proof {
            assert(entry_keys(r.tags@) =~= Seq::<Seq<char>>::empty());
            assert(entry_keys(r.fields@) =~= Seq::<Seq<char>>::empty());
        }
        r
    }

    /// Sets one tag, replacing any earlier value under the same key.
    pub fn with_tag(self, key: String, value: String) -> (r: Measurement)
        ensures
            r.tag_map() == self.tag_map().insert(key@, value),
            entry_keys(r.spec_tags()).no_duplicates(),
            r.spec_name() == self.spec_name(),
            r.spec_fields() == self.spec_fields(),
            r.spec_time_ms() == self.spec_time_ms(),
    {
        proof {
            use_type_invariant(&self);
        }
        let Measurement { name, tags, fields, time_ms } = self;
        let tags = upsert_entry(tags, key, value);
        Measurement { name, tags, fields, time_ms }
    }

    /// Sets one field, replacing any earlier value under the same key.
    pub fn with_field(self, key: String, value: FieldValue) -> (r: Measurement)
        ensures
            r.field_map() == self.field_map().insert(key@, value),
            entry_keys(r.spec_fields()).no_duplicates(),
            r.spec_name() == self.spec_name(),
            r.spec_tags() == self.spec_tags(),
            r.spec_time_ms() == self.spec_time_ms(),
    {
        proof {
            use_type_invariant(&self);
        }
        let Measurement { name, tags, fields, time_ms } = self;
        let fields = upsert_entry(fields, key, value);
        Measurement { name, tags, fields, time_ms }
    }

    pub fn name(&self) -> (r: &String)
        ensures
            r@ == self.spec_name(),
    {
        &self.name
    }

    /// The tags, each key once.
    pub fn tags(&self) -> (r: &Vec<(String, String)>)
        ensures
            r@ == self.spec_tags(),
            entry_keys(r@).no_duplicates(),
    {
        proof {
            use_type_invariant(self);
        }
        &self.tags
    }

    /// The fields, each key once.
    pub fn fields(&self) -> (r: &Vec<(String, FieldValue)>)
        ensures
            r@ == self.spec_fields(),
            entry_keys(r@).no_duplicates(),
    {
        proof {
            use_type_invariant(self);
        }
        &self.fields
    }

    pub fn time_ms(&self) -> (r: u64)
        ensures
            r == self.spec_time_ms(),
    {
        self.time_ms
    }
}

} // verus!
