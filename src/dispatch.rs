use crate::measurement::{entry_keys, entry_map, Measurement};
use vstd::prelude::*;

verus! {

/// How many measurements the channel from the producers to the dispatcher
/// holds before a producer's send waits.
pub const METRICS_CHANNEL_CAPACITY: usize = 5000;

/// The tags that every measurement carries to the store: the network's name
/// and the host's name, which replace any value that a producer set under
/// those keys.
pub open spec fn with_builtin_tags(
    tags: Map<Seq<char>, String>,
    network: String,
    hostname: String,
) -> Map<Seq<char>, String> {
    tags.insert("network"@, network).insert("hostname"@, hostname)
}

/// Attaches the process-wide tags to each measurement on its way to the store.
pub struct Dispatcher {
    network: String,
    hostname: String,
}

impl Dispatcher {
    pub closed spec fn spec_network(&self) -> String {
        self.network
    }

    pub closed spec fn spec_hostname(&self) -> String {
        self.hostname
    }

    pub fn new(network: String, hostname: String) -> (r: Dispatcher)
        ensures
            r.spec_network() == network,
            r.spec_hostname() == hostname,
    {
        Dispatcher { network, hostname }
    }

    /// The measurement with the `network` and `hostname` tags set to this
    /// dispatcher's values; all else is kept.
    pub fn attach_builtin_tags(&self, m: Measurement) -> (r: Measurement)
        ensures
            r.tag_map() == with_builtin_tags(m.tag_map(), self.spec_network(), self.spec_hostname()),
            entry_keys(r.spec_tags()).no_duplicates(),
            r.spec_name() == m.spec_name(),
            r.field_map() == m.field_map(),
            r.spec_time_ms() == m.spec_time_ms(),
    {
        let m = m.with_tag(String::from_str("network"), self.network.clone());
        m.with_tag(String::from_str("hostname"), self.hostname.clone())
    }
}

/// The built-in tags take precedence: whatever a producer set, the store
/// sees the dispatcher's `network` and `hostname`, and every other tag as the
/// producer set it.
pub proof fn lemma_builtin_tags_take_precedence(
    tags: Map<Seq<char>, String>,
    network: String,
    hostname: String,
)
    ensures
        with_builtin_tags(tags, network, hostname)["network"@] == network,
        with_builtin_tags(tags, network, hostname)["hostname"@] == hostname,
        forall|k: Seq<char>|
            k != "network"@ && k != "hostname"@ && tags.contains_key(k) ==> #[trigger] with_builtin_tags(
                tags,
                network,
                hostname,
            )[k] == tags[k],
{
    reveal_strlit("network");
    reveal_strlit("hostname");
    assert("network"@ != "hostname"@) by {
        assert("network"@[0] != "hostname"@[0]);
    }
}

/// Where keys are unique, the one entry for a key carries the value that the
/// entries give it.
pub proof fn lemma_one_entry_per_key(tags: Seq<(String, String)>, key: Seq<char>)
    requires
        entry_keys(tags).no_duplicates(),
        entry_map(tags).contains_key(key),
    ensures
        exists|i: int| 0 <= i < tags.len() && tags[i].0@ == key && tags[i].1 == entry_map(tags)[key],
        forall|i: int, j: int|
            0 <= i < tags.len() && 0 <= j < tags.len() && tags[i].0@ == key && tags[j].0@ == key
                ==> i == j,
    decreases tags.len(),
{
    assert forall|i: int, j: int|
        0 <= i < tags.len() && 0 <= j < tags.len() && tags[i].0@ == key && tags[j].0@ == key
            implies i == j by {
        assert(entry_keys(tags)[i] == tags[i].0@);
        assert(entry_keys(tags)[j] == tags[j].0@);
    }
    let n = tags.len() as int;
    if tags[n - 1].0@ == key {
        assert(tags[n - 1].1 == entry_map(tags)[key]);
    } else {
        let pre = tags.drop_last();
        assert(entry_keys(pre) =~= entry_keys(tags).drop_last());
        assert(entry_keys(pre).no_duplicates()) by {
            assert forall|a: int, b: int|
                0 <= a < b < entry_keys(pre).len() implies entry_keys(pre)[a] != entry_keys(pre)[b] by {
                assert(entry_keys(pre)[a] == entry_keys(tags)[a]);
                assert(entry_keys(pre)[b] == entry_keys(tags)[b]);
            }
        }
        lemma_one_entry_per_key(pre, key);
        let i = choose|i: int| 0 <= i < pre.len() && pre[i].0@ == key && pre[i].1 == entry_map(pre)[key];
        assert(tags[i] == pre[i]);
    }
}

/// Once the built-in tags are attached, the tags hold exactly one `network`
/// entry, with the dispatcher's network, and exactly one `hostname` entry,
/// with its host name, whatever the producer had set.
pub proof fn lemma_one_builtin_tag_each(
    tags: Seq<(String, String)>,
    producer_tags: Map<Seq<char>, String>,
    network: String,
    hostname: String,
)
    requires
        entry_keys(tags).no_duplicates(),
        entry_map(tags) == with_builtin_tags(producer_tags, network, hostname),
    ensures
        exists|i: int| 0 <= i < tags.len() && tags[i].0@ == "network"@ && tags[i].1 == network,
        exists|i: int| 0 <= i < tags.len() && tags[i].0@ == "hostname"@ && tags[i].1 == hostname,
        forall|i: int, j: int|
            0 <= i < tags.len() && 0 <= j < tags.len() && tags[i].0@ == "network"@ && tags[j].0@
                == "network"@ ==> i == j,
        forall|i: int, j: int|
            0 <= i < tags.len() && 0 <= j < tags.len() && tags[i].0@ == "hostname"@ && tags[j].0@
                == "hostname"@ ==> i == j,
{
    lemma_builtin_tags_take_precedence(producer_tags, network, hostname);
    lemma_one_entry_per_key(tags, "network"@);
    lemma_one_entry_per_key(tags, "hostname"@);
}

} // verus!
