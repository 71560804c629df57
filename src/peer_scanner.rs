use vstd::prelude::*;

verus! {

/// The cursor after a batch with ids `batch`: the last id where there is
/// one, else the cursor as it was.
pub open spec fn next_cursor(cursor: i32, batch: Seq<i32>) -> i32 {
    if batch.len() == 0 {
        cursor
    } else {
        batch.last()
    }
}

/// Ids as the store hands a scan its batch: each after `cursor`, ascending.
pub open spec fn batch_after(cursor: i32, batch: Seq<i32>) -> bool {
    &&& forall|i: int| 0 <= i < batch.len() ==> cursor < #[trigger] batch[i]
    &&& forall|i: int, j: int| 0 <= i < j < batch.len() ==> batch[i] < batch[j]
}

/// Scans the `peer` table of one network for rows without a country, from a
/// cursor that only moves forward.
pub struct PeerScanner {
    network_id: String,
    last_id: i32,
}

impl PeerScanner {
    pub closed spec fn spec_network_id(&self) -> Seq<char> {
        self.network_id@
    }

    pub closed spec fn spec_last_id(&self) -> i32 {
        self.last_id
    }

    /// A scanner for the schema `network_id`, before every row: the cursor
    /// starts at the least id there is.
    pub fn new(network_id: String) -> (r: PeerScanner)
        ensures
            r.spec_network_id() == network_id@,
            r.spec_last_id() == i32::MIN,
    {
        PeerScanner { network_id, last_id: i32::MIN }
    }

    /// The id after which the next scan looks.
    pub fn last_id(&self) -> (r: i32)
        ensures
            r == self.spec_last_id(),
    {
        self.last_id
    }

    /// The query for the next batch: up to a hundred rows with an id after
    /// `$1` and no country, ascending by id.
    pub fn select_statement(&self) -> (r: String)
        ensures
            r@ == "SELECT id, time, version, ip FROM "@ + self.spec_network_id()
                + ".peer WHERE id > $1 AND country IS NULL ORDER BY ID LIMIT 100"@,
    {
        let mut r = String::from_str("SELECT id, time, version, ip FROM ");
        r.append(self.network_id.as_str());
        r.append(".peer WHERE id > $1 AND country IS NULL ORDER BY ID LIMIT 100");
        r
    }

    /// The statement that sets the country `$1` of the row with id `$2`.
    pub fn update_statement(&self) -> (r: String)
        ensures
            r@ == "UPDATE "@ + self.spec_network_id() + ".peer SET country = $1 WHERE id = $2"@,
    {
        let mut r = String::from_str("UPDATE ");
        r.append(self.network_id.as_str());
        r.append(".peer SET country = $1 WHERE id = $2");
        r
    }

    /// Takes in the ids of a batch: the cursor moves to the last of them;
    /// an empty batch leaves it where it was. Returns whether there are rows
    /// to look up, or else the scan waits before it asks again.
    pub fn advance(&mut self, batch: &Vec<i32>) -> (has_rows: bool)
        ensures
            final(self).spec_last_id() == next_cursor(old(self).spec_last_id(), batch@),
            final(self).spec_network_id() == old(self).spec_network_id(),
            has_rows == (batch@.len() > 0),
    {
        let n = batch.len();
        if n == 0 {
            false
        } else {
            self.last_id = batch[n - 1];
            true
        }
    }
}

/// The cursor never moves back: after a batch that the store handed out
/// for the cursor, the cursor is at or past every id of the batch, and past
/// the old cursor where the batch has rows; no later scan returns those ids.
pub proof fn lemma_cursor_monotonic(cursor: i32, batch: Seq<i32>)
    requires
        batch_after(cursor, batch),
    ensures
        next_cursor(cursor, batch) >= cursor,
        batch.len() > 0 ==> next_cursor(cursor, batch) > cursor,
        forall|i: int| 0 <= i < batch.len() ==> #[trigger] batch[i] <= next_cursor(cursor, batch),
{
    if batch.len() > 0 {
        assert(cursor < batch[batch.len() - 1]);
        assert forall|i: int| 0 <= i < batch.len() implies #[trigger] batch[i] <= next_cursor(
            cursor,
            batch,
        ) by {
            if i < batch.len() - 1 {
                assert(batch[i] < batch[batch.len() - 1]);
            }
        }
    }
}

} // verus!
