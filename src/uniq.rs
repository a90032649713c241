//! Deduplication of records across one or more streams: the first record
//! seen for each distinct projection of selected fields is kept, the others
//! are dropped, and encounter order is preserved.
use vstd::prelude::*;

use std::collections::hash_map::DefaultHasher;
use std::collections::HashMap;
use std::hash::Hasher;
use vstd::std_specs::hash::DefaultHasherAdditionalSpecFns;

use crate::record::{Record, copy_fields, fields_equal, fields_view, records_view};
use crate::select::{Selection, fits, project};

verus! {

/// The selected fields of a record, joined into one byte string with each
/// field followed by a zero byte. Distinct keys may join to the same bytes;
/// this only decides where a key is stored, never whether two keys are equal.
pub open spec fn joined(key: Seq<Seq<u8>>) -> Seq<u8>
    decreases key.len(),
{
    if key.len() == 0 {
        Seq::empty()
    } else {
        joined(key.drop_last()) + key.last() + seq![0u8]
    }
}

/// The 64-bit hash of a byte string under the process-wide default hasher.
pub open spec fn hash_of(bytes: Seq<u8>) -> u64 {
    DefaultHasher::spec_finish(seq![bytes])
}

/// Hashes a byte string with a freshly created default hasher; every such
/// hasher gives the same value for the same bytes.
pub fn calculate_hash(t: &[u8]) -> (r: u64)
    ensures
        r == hash_of(t@),
{
    let mut s = DefaultHasher::new();
    s.write(t);
    s.finish()
}

/// Joins the fields of `key` with a zero byte after each.
pub fn join_fields(key: &Vec<Vec<u8>>) -> (r: Vec<u8>)
    ensures
        r@ == joined(fields_view(key@)),
{
    let mut r: Vec<u8> = Vec::new();
    let mut i: usize = 0;
    while i < key.len()
        invariant
            0 <= i <= key@.len(),
            r@ == joined(fields_view(key@).take(i as int)),
        decreases key@.len() - i,
    {
        let ghost before = r@;
        r.extend_from_slice(key[i].as_slice());
        assert(r@ =~= before + key@[i as int]@);
        r.push(0u8);
        assert(fields_view(key@).take(i + 1).drop_last() =~= fields_view(key@).take(i as int));
        i = i + 1;
    }
    assert(fields_view(key@).take(key@.len() as int) =~= fields_view(key@));
    r
}

/// Whether `bucket` holds a key equal to `k`.
pub open spec fn bucket_has(bucket: Seq<Vec<Vec<u8>>>, k: Seq<Seq<u8>>) -> bool {
    exists|i: int| 0 <= i < bucket.len() && fields_view(#[trigger] bucket[i]@) == k
}

/// A set of keys, each a sequence of byte fields, stored in buckets by the
/// hash of its joined bytes and compared exactly within a bucket.
pub struct KeySet {
    buckets: HashMap<u64, Vec<Vec<Vec<u8>>>>,
}

impl KeySet {
    /// Whether `k` is in the set.
    pub closed spec fn has(&self, k: Seq<Seq<u8>>) -> bool {
        let h = hash_of(joined(k));
        self.buckets@.contains_key(h) && bucket_has(self.buckets@[h]@, k)
    }
}

impl View for KeySet {
    type V = Set<Seq<Seq<u8>>>;

    closed spec fn view(&self) -> Set<Seq<Seq<u8>>> {
        Set::new(|k: Seq<Seq<u8>>| self.has(k))
    }
}

impl KeySet {
    /// An empty set.
    pub fn new() -> (s: KeySet)
        ensures
            s@ == Set::<Seq<Seq<u8>>>::empty(),
    {
        let s = KeySet { buckets: HashMap::new() };
        assert(s@ =~= Set::<Seq<Seq<u8>>>::empty());
        s
    }

    /// Adds `key`; returns whether it was absent before.
    pub fn insert(&mut self, key: Vec<Vec<u8>>) -> (fresh: bool)
        ensures
            fresh == !old(self)@.contains(fields_view(key@)),
            final(self)@ == old(self)@.insert(fields_view(key@)),
    {
        let ghost k = fields_view(key@);
        let ghost old_map = self.buckets@;
        let h = calculate_hash(join_fields(&key).as_slice());
        assert(h == hash_of(joined(k)));
        match self.buckets.remove(&h) {
            Some(mut bucket) => {
                let ghost removed = self.buckets@;
                assert(removed == old_map.remove(h));
                assert(old_map.contains_key(h) && old_map[h] == bucket);
                let mut i: usize = 0;
                while i < bucket.len()
                    invariant
                        0 <= i <= bucket@.len(),
                        k == fields_view(key@),
                        h == hash_of(joined(k)),
                        self.buckets@ == removed,
                        removed == old_map.remove(h),
                        old_map == old(self).buckets@,
                        old_map.contains_key(h) && old_map[h] == bucket,
                        forall|j: int| 0 <= j < i ==> fields_view(#[trigger] bucket@[j]@) != k,
                    decreases bucket@.len() - i,
                {
                    if fields_equal(&bucket[i], &key) {
                        proof {
                            assert(bucket_has(bucket@, k));
                        }
                        self.buckets.insert(h, bucket);
                        proof {
                            assert(self.buckets@ =~= old_map);
                            assert(old(self).has(k));
                            assert(self@ =~= old(self)@.insert(k));
                        }
                        return false;
                    }
                    i = i + 1;
                }
                let ghost old_bucket = bucket@;
                assert(!bucket_has(old_bucket, k));
                bucket.push(key);
                self.buckets.insert(h, bucket);
                proof {
                    assert(!old(self).has(k));
                    assert forall|x: Seq<Seq<u8>>| self.has(x) == (old(self).has(x) || x == k) by {
                        if hash_of(joined(x)) == h {
                            if bucket_has(old_bucket, x) {
                                let j = choose|j: int|
                                    0 <= j < old_bucket.len() && fields_view(
                                        #[trigger] old_bucket[j]@,
                                    ) == x;
                                assert(self.buckets@[h]@[j] == old_bucket[j]);
                            }
                            if x == k {
                                assert(self.buckets@[h]@[old_bucket.len() as int]@ == key@);
                            }
                            if bucket_has(self.buckets@[h]@, x) {
                                let j = choose|j: int|
                                    0 <= j < self.buckets@[h]@.len() && fields_view(
                                        #[trigger] self.buckets@[h]@[j]@,
                                    ) == x;
                                if j < old_bucket.len() {
                                    assert(old_bucket[j] == self.buckets@[h]@[j]);
                                }
                            }
                        }
                    }
                    assert(self@ =~= old(self)@.insert(k));
                }
                true
            },
            None => {
                let mut bucket: Vec<Vec<Vec<u8>>> = Vec::new();
                bucket.push(key);
                self.buckets.insert(h, bucket);
                proof {
                    assert(!old(self).has(k));
                    assert forall|x: Seq<Seq<u8>>| self.has(x) == (old(self).has(x) || x == k) by {
                        if hash_of(joined(x)) == h {
                            if x == k {
                                assert(self.buckets@[h]@[0]@ == key@);
                            }
                            if bucket_has(self.buckets@[h]@, x) {
                                let j = choose|j: int|
                                    0 <= j < self.buckets@[h]@.len() && fields_view(
                                        #[trigger] self.buckets@[h]@[j]@,
                                    ) == x;
                                assert(j == 0);
                            }
                        }
                    }
                    assert(self@ =~= old(self)@.insert(k));
                }
                true
            },
        }
    }
}

/// Whether the key of item `i` already occurs among the items before it.
pub open spec fn seen_before<K, R>(items: Seq<(K, R)>, i: int) -> bool {
    exists|j: int| 0 <= j < i && items[j].0 == items[i].0
}

/// The items whose key occurs for the first time, in their original order.
pub open spec fn dedup<K, R>(items: Seq<(K, R)>) -> Seq<(K, R)>
    decreases items.len(),
{
    if items.len() == 0 {
        Seq::empty()
    } else if seen_before(items, items.len() - 1) {
        dedup(items.drop_last())
    } else {
        dedup(items.drop_last()).push(items.last())
    }
}

/// The items of one stream: each row paired with its selected fields.
pub open spec fn stream_items(s: Stream) -> Seq<(Seq<Seq<u8>>, Seq<Seq<u8>>)> {
    Seq::new(s.rows@.len(), |i: int| (project(s.rows@[i]@, s.selection@), s.rows@[i]@))
}

/// The items of several streams, one stream after the other.
pub open spec fn all_items(streams: Seq<Stream>) -> Seq<(Seq<Seq<u8>>, Seq<Seq<u8>>)>
    decreases streams.len(),
{
    if streams.len() == 0 {
        Seq::empty()
    } else {
        all_items(streams.drop_last()) + stream_items(streams.last())
    }
}

/// Whether every row of `s` is wide enough for its selection.
pub open spec fn stream_fits(s: Stream) -> bool {
    forall|i: int| 0 <= i < s.rows@.len() ==> fits(s.selection@, #[trigger] s.rows@[i]@.len())
}

/// The keys of the items, as a set.
pub open spec fn key_set<K, R>(items: Seq<(K, R)>) -> Set<K> {
    Set::new(|k: K| exists|j: int| 0 <= j < items.len() && items[j].0 == k)
}

/// One input stream: an optional header, the selection resolved for it, and
/// its data rows.
pub struct Stream {
    pub header: Option<Record>,
    pub selection: Selection,
    pub rows: Vec<Record>,
}

/// The decisions of a deduplicating run over streams read one after another:
/// which header to write, and which rows to pass on.
pub struct Deduper {
    seen: KeySet,
    started: bool,
}

impl Deduper {
    /// The keys of the rows passed on so far.
    pub closed spec fn seen(&self) -> Set<Seq<Seq<u8>>> {
        self.seen@
    }

    /// Whether a stream has been begun.
    pub closed spec fn started(&self) -> bool {
        self.started
    }

    /// A run that has seen nothing.
    pub fn new() -> (d: Deduper)
        ensures
            d.seen() == Set::<Seq<Seq<u8>>>::empty(),
            !d.started(),
    {
        Deduper { seen: KeySet::new(), started: false }
    }

    /// Begins the next stream; returns whether its header is the output's
    /// header, which holds of the first stream only.
    pub fn begin_stream(&mut self) -> (write_header: bool)
        ensures
            write_header == !old(self).started(),
            final(self).started(),
            final(self).seen() == old(self).seen(),
    {
        let first = !self.started;
        self.started = true;
        first
    }

    /// Offers a row of the current stream; returns whether it is to be
    /// written, which holds when no earlier row had the same selected fields.
    pub fn offer(&mut self, row: &Record, selection: &Selection) -> (write: bool)
        requires
            fits(selection@, row@.len()),
        ensures
            write == !old(self).seen().contains(project(row@, selection@)),
            final(self).seen() == old(self).seen().insert(project(row@, selection@)),
            final(self).started() == old(self).started(),
    {
        let key = selection.project(row);
        self.seen.insert(key)
    }
}

proof fn lemma_all_items_step(streams: Seq<Stream>, s: int)
    requires
        0 <= s < streams.len(),
    ensures
        all_items(streams.take(s + 1)) == all_items(streams.take(s)) + stream_items(streams[s]),
{
    assert(streams.take(s + 1).drop_last() =~= streams.take(s));
}

/// Runs the deduplication over whole streams: the output is the first
/// stream's header, if it has one, followed by the rows whose selected fields
/// occur for the first time across all streams, in encounter order.
pub fn uniq(streams: &Vec<Stream>) -> (out: Vec<Record>)
    requires
        forall|i: int| 0 <= i < streams@.len() ==> stream_fits(#[trigger] streams@[i]),
    ensures
        records_view(out@) == (if streams@.len() > 0 && streams@[0].header is Some {
            seq![streams@[0].header->Some_0@]
        } else {
            Seq::empty()
        }) + dedup(all_items(streams@)).map_values(|p: (Seq<Seq<u8>>, Seq<Seq<u8>>)| p.1),
{
    let mut d = Deduper::new();
    let mut out: Vec<Record> = Vec::new();
    let ghost head: Seq<Seq<Seq<u8>>> = if streams@.len() > 0 && streams@[0].header is Some {
        seq![streams@[0].header->Some_0@]
    } else {
        Seq::<Seq<Seq<u8>>>::empty()
    };
    let mut s: usize = 0;
    while s < streams.len()
        invariant
            0 <= s <= streams@.len(),
            forall|i: int| 0 <= i < streams@.len() ==> stream_fits(#[trigger] streams@[i]),
            d.started() == (s > 0),
            head == (if streams@.len() > 0 && streams@[0].header is Some {
                seq![streams@[0].header->Some_0@]
            } else {
                Seq::<Seq<Seq<u8>>>::empty()
            }),
            s > 0 ==> records_view(out@) == head + dedup(all_items(streams@.take(s as int))).map_values(
                |p: (Seq<Seq<u8>>, Seq<Seq<u8>>)| p.1,
            ),
            s == 0 ==> out@.len() == 0,
            d.seen() == key_set(all_items(streams@.take(s as int))),
        decreases streams@.len() - s,
    {
        let stream = &streams[s];
        let ghost before = all_items(streams@.take(s as int));
        if d.begin_stream() {
            match &stream.header {
                Some(h) => out.push(h.duplicate()),
                None => {},
            }
        }
        assert(records_view(out@) == head + dedup(before).map_values(
            |p: (Seq<Seq<u8>>, Seq<Seq<u8>>)| p.1,
        )) by {
            if s == 0 {
                assert(streams@.take(0) =~= Seq::<Stream>::empty());
                assert(dedup(before) =~= Seq::empty());
                assert(records_view(out@) =~= head + dedup(before).map_values(
                    |p: (Seq<Seq<u8>>, Seq<Seq<u8>>)| p.1,
                ));
            }
        }
        let ghost items = stream_items(*stream);
        let mut r: usize = 0;
        while r < stream.rows.len()
            invariant
                0 <= r <= stream.rows@.len(),
                s < streams@.len(),
                *stream == streams@[s as int],
                stream_fits(*stream),
                items == stream_items(*stream),
                records_view(out@) == head + dedup(before + items.take(r as int)).map_values(
                    |p: (Seq<Seq<u8>>, Seq<Seq<u8>>)| p.1,
                ),
                d.seen() == key_set(before + items.take(r as int)),
                d.started(),
            decreases stream.rows@.len() - r,
        {
            let row = &stream.rows[r];
            assert(fits(stream.selection@, stream.rows@[r as int]@.len()));
            let ghost prev = before + items.take(r as int);
            let ghost next = before + items.take(r + 1);
            assert(next =~= prev.push(items[r as int]));
            assert(next.drop_last() =~= prev);
            assert(seen_before(next, next.len() - 1) == key_set(prev).contains(items[r as int].0));
            assert(key_set(next) =~= key_set(prev).insert(items[r as int].0));
            if d.offer(row, &stream.selection) {
                let ghost shown = records_view(out@);
                out.push(row.duplicate());
                assert(dedup(next) == dedup(prev).push(items[r as int]));
                assert(records_view(out@) =~= shown.push(row@));
                assert(dedup(next).map_values(|p: (Seq<Seq<u8>>, Seq<Seq<u8>>)| p.1) =~= dedup(
                    prev,
                ).map_values(|p: (Seq<Seq<u8>>, Seq<Seq<u8>>)| p.1).push(row@));
                assert(records_view(out@) =~= head + dedup(next).map_values(
                    |p: (Seq<Seq<u8>>, Seq<Seq<u8>>)| p.1,
                ));
            }
            r = r + 1;
        }
        proof {
            lemma_all_items_step(streams@, s as int);
            assert(items.take(stream.rows@.len() as int) =~= items);
        }
        s = s + 1;
    }
    assert(streams@.take(streams@.len() as int) =~= streams@);
    if streams.len() == 0 {
        assert(records_view(out@) =~= head + dedup(all_items(streams@)).map_values(
            |p: (Seq<Seq<u8>>, Seq<Seq<u8>>)| p.1,
        ));
    }
    out
}

/// The positions of the items whose key occurs for the first time, in order.
pub open spec fn first_positions<K, R>(items: Seq<(K, R)>) -> Seq<int>
    decreases items.len(),
{
    if items.len() == 0 {
        Seq::empty()
    } else if seen_before(items, items.len() - 1) {
        first_positions(items.drop_last())
    } else {
        first_positions(items.drop_last()).push(items.len() - 1)
    }
}

/// Whether no two items share a key.
pub open spec fn keys_distinct<K, R>(items: Seq<(K, R)>) -> bool {
    forall|i: int, j: int| 0 <= i < j < items.len() ==> items[i].0 != items[j].0
}

/// Pairs each row with its selected fields.
pub open spec fn keyed_rows(rows: Seq<Seq<Seq<u8>>>, sel: Seq<usize>) -> Seq<(Seq<Seq<u8>>, Seq<Seq<u8>>)> {
    Seq::new(rows.len(), |i: int| (project(rows[i], sel), rows[i]))
}

proof fn lemma_seen_before_prefix<K, R>(items: Seq<(K, R)>)
    requires
        items.len() > 0,
    ensures
        forall|i: int|
            0 <= i < items.len() - 1 ==> #[trigger] seen_before(items, i) == seen_before(
                items.drop_last(),
                i,
            ),
{
    let p = items.drop_last();
    assert forall|i: int| 0 <= i < items.len() - 1 implies #[trigger] seen_before(items, i)
        == seen_before(p, i) by {
        if seen_before(items, i) {
            let j = choose|j: int| 0 <= j < i && items[j].0 == items[i].0;
            assert(p[j] == items[j] && p[i] == items[i]);
        }
        if seen_before(p, i) {
            let j = choose|j: int| 0 <= j < i && p[j].0 == p[i].0;
            assert(p[j] == items[j] && p[i] == items[i]);
        }
    }
}

/// Deduplication keeps, in their original relative order, exactly the items
/// whose key occurs there for the first time: the output is the input read at
/// a strictly increasing list of positions, which are the first occurrences.
pub proof fn lemma_dedup_order<K, R>(items: Seq<(K, R)>)
    ensures
        first_positions(items).len() == dedup(items).len(),
        forall|m: int|
            0 <= m < first_positions(items).len() ==> 0 <= #[trigger] first_positions(items)[m]
                < items.len() && dedup(items)[m] == items[first_positions(items)[m]],
        forall|m1: int, m2: int|
            0 <= m1 < m2 < first_positions(items).len() ==> first_positions(items)[m1]
                < first_positions(items)[m2],
        forall|i: int|
            0 <= i < items.len() ==> (!seen_before(items, i) <==> first_positions(
                items,
            ).contains(i)),
    decreases items.len(),
{
    if items.len() > 0 {
        let p = items.drop_last();
        lemma_dedup_order(p);
        lemma_seen_before_prefix(items);
        let n = items.len() - 1;
        let ip = first_positions(p);
        assert forall|i: int| 0 <= i < items.len() implies (!seen_before(items, i)
            <==> first_positions(items).contains(i)) by {
            if i < n {
                assert(seen_before(items, i) == seen_before(p, i));
                if first_positions(items).contains(i) {
                    let m = choose|m: int|
                        0 <= m < first_positions(items).len() && first_positions(items)[m] == i;
                    if m < ip.len() {
                        assert(ip[m] == i);
                    }
                }
                if ip.contains(i) {
                    let m = choose|m: int| 0 <= m < ip.len() && ip[m] == i;
                    assert(first_positions(items)[m] == i);
                }
            } else {
                if !seen_before(items, i) {
                    assert(first_positions(items)[ip.len() as int] == i);
                } else {
                    if ip.contains(i) {
                        let m = choose|m: int| 0 <= m < ip.len() && ip[m] == i;
                        assert(ip[m] < p.len());
                    }
                }
            }
        }
    }
}

/// The output is never longer than the input, and is exactly as long when
/// no two items share a key.
pub proof fn lemma_dedup_size<K, R>(items: Seq<(K, R)>)
    ensures
        dedup(items).len() <= items.len(),
        dedup(items).len() == items.len() <==> keys_distinct(items),
    decreases items.len(),
{
    if items.len() > 0 {
        let p = items.drop_last();
        let n = items.len() - 1;
        lemma_dedup_size(p);
        if keys_distinct(items) {
            assert forall|i: int, j: int| 0 <= i < j < p.len() implies p[i].0 != p[j].0 by {
                assert(p[i] == items[i] && p[j] == items[j]);
            }
            assert(!seen_before(items, n));
        }
        if dedup(items).len() == items.len() {
            assert(!seen_before(items, n));
            assert forall|i: int, j: int| 0 <= i < j < items.len() implies items[i].0
                != items[j].0 by {
                if j < n {
                    assert(p[i] == items[i] && p[j] == items[j]);
                }
            }
        }
    }
}

proof fn lemma_dedup_of_distinct<K, R>(items: Seq<(K, R)>)
    requires
        keys_distinct(items),
    ensures
        dedup(items) == items,
    decreases items.len(),
{
    if items.len() > 0 {
        let p = items.drop_last();
        assert forall|i: int, j: int| 0 <= i < j < p.len() implies p[i].0 != p[j].0 by {
            assert(p[i] == items[i] && p[j] == items[j]);
        }
        lemma_dedup_of_distinct(p);
        assert(!seen_before(items, items.len() - 1));
        assert(p.push(items.last()) =~= items);
    }
}

/// No two items of the output share a key.
pub proof fn lemma_dedup_keys_distinct<K, R>(items: Seq<(K, R)>)
    ensures
        keys_distinct(dedup(items)),
{
    lemma_dedup_order(items);
    let out = dedup(items);
    let ix = first_positions(items);
    assert forall|i: int, j: int| 0 <= i < j < out.len() implies out[i].0 != out[j].0 by {
        assert(ix[i] < ix[j]);
        assert(ix.contains(ix[j]));
        assert(!seen_before(items, ix[j]));
    }
}

/// Deduplicating an output a second time changes nothing.
pub proof fn lemma_dedup_idempotent<K, R>(items: Seq<(K, R)>)
    ensures
        dedup(dedup(items)) == dedup(items),
{
    lemma_dedup_keys_distinct(items);
    lemma_dedup_of_distinct(dedup(items));
}

/// Running the deduplication over its own output rows, with the same
/// selection, gives those rows back unchanged.
pub proof fn lemma_uniq_idempotent(rows: Seq<Seq<Seq<u8>>>, sel: Seq<usize>)
    ensures
        ({
            let out = dedup(keyed_rows(rows, sel)).map_values(
                |p: (Seq<Seq<u8>>, Seq<Seq<u8>>)| p.1,
            );
            dedup(keyed_rows(out, sel)).map_values(|p: (Seq<Seq<u8>>, Seq<Seq<u8>>)| p.1) == out
        }),
{
    let items = keyed_rows(rows, sel);
    let d = dedup(items);
    let out = d.map_values(|p: (Seq<Seq<u8>>, Seq<Seq<u8>>)| p.1);
    lemma_dedup_order(items);
    assert(keyed_rows(out, sel) =~= d) by {
        assert forall|m: int| 0 <= m < d.len() implies keyed_rows(out, sel)[m] == d[m] by {
            let k = first_positions(items)[m];
            assert(d[m] == items[k]);
        }
    }
    lemma_dedup_idempotent(items);
}

} // verus!
