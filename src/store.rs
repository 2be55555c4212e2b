//! The result store's logic: which column writes a save makes and in which
//! batches, how a row is read back from its three columns, and which keys a
//! substring scan selects. The store itself is a map from column and key to bytes.
use vstd::prelude::*;
use vstd::string::*;
use vstd::utf8::*;
use crate::codec::{ports_text, DatabaseResult, HostRecord};
use crate::text::{
    bytes_contain, contains_bytes, lemma_split_nums_joined, lossy_decode, lossy_text, occurs_at,
    split_nums, split_nums_spec, utf8_text,
};

verus! {

/// Rows per write batch.
pub const BATCH_SIZE: usize = 1000;

/// The store's three columns: the presence set, the port text, the service blob.
#[derive(Debug, Clone, Copy, PartialEq, Eq, Structural)]
pub enum Column {
    Presence,
    Ports,
    Services,
}

/// One write: `value` under `key` in `column`.
#[derive(Debug)]
pub struct ColumnPut {
    pub column: Column,
    pub key: Vec<u8>,
    pub value: Vec<u8>,
}

pub ghost struct PutView {
    pub column: Column,
    pub key: Seq<u8>,
    pub value: Seq<u8>,
}

impl View for ColumnPut {
    type V = PutView;

    open spec fn view(&self) -> PutView {
        PutView { column: self.column, key: self.key@, value: self.value@ }
    }
}

/// What the store holds: for each column and key, the bytes written last.
pub type StoreView = Map<(Column, Seq<u8>), Seq<u8>>;

/// The three writes that save one record: presence, port text, services.
pub open spec fn row_puts(r: HostRecord) -> Seq<PutView> {
    let k = encode_utf8(r.id);
    seq![
        PutView { column: Column::Presence, key: k, value: seq![] },
        PutView { column: Column::Ports, key: k, value: encode_utf8(ports_text(r.ports)) },
        PutView { column: Column::Services, key: k, value: encode_utf8(r.services) },
    ]
}

/// The writes that save `rows`, in order.
pub open spec fn rows_puts(rows: Seq<HostRecord>) -> Seq<PutView>
    decreases rows.len(),
{
    if rows.len() == 0 {
        seq![]
    } else {
        rows_puts(rows.drop_last()) + row_puts(rows.last())
    }
}

/// The writes of a sequence of batches, batch after batch.
pub open spec fn concat_batches(bs: Seq<Seq<PutView>>) -> Seq<PutView>
    decreases bs.len(),
{
    if bs.len() == 0 {
        seq![]
    } else {
        concat_batches(bs.drop_last()) + bs.last()
    }
}

/// The store after `puts`, applied in order.
pub open spec fn apply_puts(s: StoreView, puts: Seq<PutView>) -> StoreView
    decreases puts.len(),
{
    if puts.len() == 0 {
        s
    } else {
        let p = puts.last();
        apply_puts(s, puts.drop_last()).insert((p.column, p.key), p.value)
    }
}

/// Text of a column value; a missing value reads as empty.
pub open spec fn column_text(v: Option<Seq<u8>>) -> Seq<char> {
    match v {
        Some(b) => lossy_decode(b),
        None => seq![],
    }
}

/// The row read back from its columns: present in the presence set, or nothing.
pub open spec fn row_view(
    key: Seq<char>,
    present: bool,
    ports: Option<Seq<u8>>,
    services: Option<Seq<u8>>,
) -> Option<HostRecord> {
    if present {
        Some(
            HostRecord {
                id: key,
                ports: split_nums_spec(column_text(ports), seq![',']),
                services: column_text(services),
            },
        )
    } else {
        None
    }
}

pub open spec fn lookup(s: StoreView, c: Column, k: Seq<u8>) -> Option<Seq<u8>> {
    if s.contains_key((c, k)) {
        Some(s[(c, k)])
    } else {
        None
    }
}

/// The row that the store holds under host `key`.
pub open spec fn stored_row(s: StoreView, key: Seq<char>) -> Option<HostRecord> {
    let k = encode_utf8(key);
    row_view(
        key,
        s.contains_key((Column::Presence, k)),
        lookup(s, Column::Ports, k),
        lookup(s, Column::Services, k),
    )
}

/// The keys, in scan order, whose value is text holding `sub`.
pub open spec fn matching_keys(entries: Seq<(Seq<u8>, Seq<u8>)>, sub: Seq<u8>) -> Seq<Seq<char>>
    decreases entries.len(),
{
    if entries.len() == 0 {
        seq![]
    } else {
        let prev = matching_keys(entries.drop_last(), sub);
        let e = entries.last();
        if entry_matches(e, sub) {
            prev.push(decode_utf8(e.0))
        } else {
            prev
        }
    }
}

/// A scanned entry is selected: key and value are text, and the value holds `sub`.
pub open spec fn entry_matches(e: (Seq<u8>, Seq<u8>), sub: Seq<u8>) -> bool {
    valid_utf8(e.1) && contains_bytes(e.1, sub) && valid_utf8(e.0)
}

/// The writes of each batch.
pub open spec fn batch_views(bs: Seq<Vec<ColumnPut>>) -> Seq<Seq<PutView>> {
    bs.map_values(|b: Vec<ColumnPut>| b@.map_values(|p: ColumnPut| p@))
}

fn puts_for_row(row: &DatabaseResult, batch: &mut Vec<ColumnPut>)
    ensures
        final(batch)@.map_values(|p: ColumnPut| p@) == old(batch)@.map_values(|p: ColumnPut| p@)
            + row_puts(row@),
{
    let ghost before = batch@.map_values(|p: ColumnPut| p@);
    let id = row.id.as_str();
    batch.push(ColumnPut { column: Column::Presence, key: id.as_bytes_vec(), value: Vec::new() });
    let ports = row.ports_to_string();
    batch.push(
        ColumnPut {
            column: Column::Ports,
            key: id.as_bytes_vec(),
            value: ports.as_str().as_bytes_vec(),
        },
    );
    batch.push(
        ColumnPut {
            column: Column::Services,
            key: id.as_bytes_vec(),
            value: row.services.as_str().as_bytes_vec(),
        },
    );
    assert(batch@.map_values(|p: ColumnPut| p@) =~= before + row_puts(row@));
}

/// The write batches that save `rows`: each row's three writes, in input order,
/// in batches of `BATCH_SIZE` rows; only the last batch may hold fewer.
pub fn plan_batches(rows: &Vec<DatabaseResult>) -> (r: Vec<Vec<ColumnPut>>)
    ensures
        concat_batches(batch_views(r@)) == rows_puts(rows@.map_values(|d: DatabaseResult| d@)),
        r@.len() == 0 <==> rows@.len() == 0,
        forall|i: int| 0 <= i < r@.len() - 1 ==> #[trigger] r@[i]@.len() == 3 * BATCH_SIZE,
        r@.len() > 0 ==> 0 < r@.last()@.len() <= 3 * BATCH_SIZE,
{
    let ghost views = rows@.map_values(|d: DatabaseResult| d@);
    let mut batches: Vec<Vec<ColumnPut>> = Vec::new();
    let mut cur: Vec<ColumnPut> = Vec::new();
    let mut in_cur: usize = 0;
    let mut i: usize = 0;
    while i < rows.len()
        invariant
            i <= rows@.len(),
            views == rows@.map_values(|d: DatabaseResult| d@),
            in_cur <= BATCH_SIZE,
            cur@.len() == 3 * in_cur,
            in_cur == 0 <==> cur@.len() == 0,
            batches@.len() == 0 && in_cur == 0 ==> i == 0,
            concat_batches(batch_views(batches@)) + cur@.map_values(|p: ColumnPut| p@) == rows_puts(
                views.subrange(0, i as int),
            ),
            forall|j: int| 0 <= j < batches@.len() ==> #[trigger] batches@[j]@.len() == 3 * BATCH_SIZE,
        decreases rows@.len() - i,
    {
        if in_cur == BATCH_SIZE {
            let ghost old_b = batches@;
            let ghost cv = cur@.map_values(|p: ColumnPut| p@);
            batches.push(cur);
            cur = Vec::new();
            in_cur = 0;
            proof {
                assert(batch_views(batches@).drop_last() =~= batch_views(old_b));
                assert(cur@.map_values(|p: ColumnPut| p@) =~= Seq::<PutView>::empty());
                assert(concat_batches(batch_views(batches@)) + Seq::<PutView>::empty()
                    =~= concat_batches(batch_views(old_b)) + cv);
            }
        }
        let ghost cv0 = cur@.map_values(|p: ColumnPut| p@);
        puts_for_row(&rows[i], &mut cur);
        in_cur = in_cur + 1;
        proof {
            let sub = views.subrange(0, i as int + 1);
            assert(sub.drop_last() =~= views.subrange(0, i as int));
            assert(sub.last() == rows@[i as int]@);
            assert(concat_batches(batch_views(batches@)) + (cv0 + row_puts(rows@[i as int]@))
                =~= concat_batches(batch_views(batches@)) + cv0 + row_puts(rows@[i as int]@));
        }
        i = i + 1;
    }
    let ghost old_b = batches@;
    let ghost cv = cur@.map_values(|p: ColumnPut| p@);
    if in_cur > 0 {
        batches.push(cur);
        proof {
            assert(batch_views(batches@).drop_last() =~= batch_views(old_b));
        }
    } else {
        proof {
            assert(concat_batches(batch_views(old_b)) + cv =~= concat_batches(batch_views(old_b)));
        }
    }
    proof {
        assert(views.subrange(0, rows@.len() as int) =~= views);
    }
    batches
}

fn column_string(v: Option<&[u8]>) -> (r: String)
    ensures
        r@ == column_text(
            match v {
                Some(b) => Some(b@),
                None => None,
            },
        ),
{
    match v {
        Some(b) => lossy_text(b),
        None => String::new(),
    }
}

/// The row for host `key` from what its columns hold: nothing where the key is
/// not in the presence set; a missing port or service value reads as empty.
pub fn row_from_columns(
    key: &str,
    present: bool,
    ports: Option<&[u8]>,
    services: Option<&[u8]>,
) -> (r: Option<DatabaseResult>)
    ensures
        r.is_some() == present,
        r.is_some() ==> r.unwrap()@ == row_view(
            key@,
            present,
            match ports {
                Some(b) => Some(b@),
                None => None,
            },
            match services {
                Some(b) => Some(b@),
                None => None,
            },
        ).unwrap(),
{
    if !present {
        return None;
    }
    let ports_text = column_string(ports);
    let services_text = column_string(services);
    proof {
        reveal_strlit(",");
        assert(","@ =~= seq![',']);
    }
    let nums = split_nums(ports_text.as_str(), ",");
    Some(DatabaseResult { id: String::from_str(key), ports: nums, services: services_text })
}

/// The keys, in the order scanned, of the entries whose key and value are text
/// and whose value holds `substring`.
pub fn select_matching_keys(entries: &Vec<(Vec<u8>, Vec<u8>)>, substring: &str) -> (r: Vec<
    String,
>)
    ensures
        r@.map_values(|s: String| s@) == matching_keys(
            entries@.map_values(|e: (Vec<u8>, Vec<u8>)| (e.0@, e.1@)),
            substring.spec_bytes(),
        ),
{
    let ghost es = entries@.map_values(|e: (Vec<u8>, Vec<u8>)| (e.0@, e.1@));
    let needle = substring.as_bytes();
    let mut out: Vec<String> = Vec::new();
    let mut i: usize = 0;
    while i < entries.len()
        invariant
            i <= entries@.len(),
            es == entries@.map_values(|e: (Vec<u8>, Vec<u8>)| (e.0@, e.1@)),
            needle@ == substring.spec_bytes(),
            out@.map_values(|s: String| s@) == matching_keys(es.subrange(0, i as int), needle@),
        decreases entries@.len() - i,
    {
        let ghost prev = out@.map_values(|s: String| s@);
        let e = &entries[i];
        let ghost sub = es.subrange(0, i as int + 1);
        proof {
            assert(sub.drop_last() =~= es.subrange(0, i as int));
            assert(sub.last() == (e.0@, e.1@));
        }
        let value_text = utf8_text(e.1.as_slice());
        if value_text.is_some() && bytes_contain(e.1.as_slice(), needle) {
            let key_text = utf8_text(e.0.as_slice());
            match key_text {
                Some(k) => {
                    out.push(k);
                    proof {
                        assert(out@.map_values(|s: String| s@) =~= prev.push(decode_utf8(e.0@)));
                    }
                },
                None => {},
            }
        }
        i = i + 1;
    }
    proof {
        assert(es.subrange(0, entries@.len() as int) =~= es);
    }
    out
}

/// The store after committing `batches` one after another.
pub open spec fn apply_batches(s: StoreView, batches: Seq<Seq<PutView>>) -> StoreView
    decreases batches.len(),
{
    if batches.len() == 0 {
        s
    } else {
        apply_puts(apply_batches(s, batches.drop_last()), batches.last())
    }
}

/// Committing batches in order writes what their writes, taken in order, write.
pub proof fn lemma_batches_in_order(s: StoreView, batches: Seq<Seq<PutView>>)
    ensures
        apply_batches(s, batches) == apply_puts(s, concat_batches(batches)),
    decreases batches.len(),
{
    if batches.len() > 0 {
        lemma_batches_in_order(s, batches.drop_last());
        lemma_apply_concat(s, concat_batches(batches.drop_last()), batches.last());
    }
}

proof fn lemma_apply_concat(s: StoreView, a: Seq<PutView>, b: Seq<PutView>)
    ensures
        apply_puts(s, a + b) == apply_puts(apply_puts(s, a), b),
    decreases b.len(),
{
    if b.len() == 0 {
        assert(a + b =~= a);
    } else {
        assert((a + b).drop_last() =~= a + b.drop_last());
        lemma_apply_concat(s, a, b.drop_last());
    }
}

/// Writing `puts` reaches a key that some write names.
pub open spec fn written(puts: Seq<PutView>, key: (Column, Seq<u8>)) -> bool {
    exists|j: int| 0 <= j < puts.len() && (puts[j].column, puts[j].key) == key
}

proof fn lemma_unwritten(s: StoreView, puts: Seq<PutView>, key: (Column, Seq<u8>))
    requires
        !written(puts, key),
    ensures
        apply_puts(s, puts).contains_key(key) == s.contains_key(key),
        s.contains_key(key) ==> apply_puts(s, puts)[key] == s[key],
    decreases puts.len(),
{
    if puts.len() > 0 {
        let d = puts.drop_last();
        assert(!written(d, key)) by {
            if written(d, key) {
                let j = choose|j: int| 0 <= j < d.len() && (d[j].column, d[j].key) == key;
                assert(puts[j] == d[j]);
            }
        }
        assert((puts.last().column, puts.last().key) != key) by {
            if (puts.last().column, puts.last().key) == key {
                assert(puts[puts.len() - 1] == puts.last());
            }
        }
        lemma_unwritten(s, d, key);
    }
}

proof fn lemma_written(s: StoreView, t: StoreView, puts: Seq<PutView>, key: (Column, Seq<u8>))
    requires
        written(puts, key),
    ensures
        apply_puts(s, puts).contains_key(key),
        apply_puts(t, puts).contains_key(key),
        apply_puts(s, puts)[key] == apply_puts(t, puts)[key],
    decreases puts.len(),
{
    let d = puts.drop_last();
    let last = puts.last();
    if (last.column, last.key) != key {
        assert(written(d, key)) by {
            let j = choose|j: int| 0 <= j < puts.len() && (puts[j].column, puts[j].key) == key;
            assert(j != puts.len() - 1);
            assert(d[j] == puts[j]);
        }
        lemma_written(s, t, d, key);
    }
}

/// Saving the same rows twice leaves the store as saving them once does.
pub proof fn lemma_save_idempotent(s: StoreView, rows: Seq<HostRecord>)
    ensures
        apply_puts(apply_puts(s, rows_puts(rows)), rows_puts(rows)) == apply_puts(
            s,
            rows_puts(rows),
        ),
{
    let p = rows_puts(rows);
    let once = apply_puts(s, p);
    let twice = apply_puts(once, p);
    assert forall|key: (Column, Seq<u8>)| #[trigger] twice.contains_key(key) == once.contains_key(
        key,
    ) && (once.contains_key(key) ==> twice[key] == once[key]) by {
        if written(p, key) {
            lemma_written(once, s, p, key);
        } else {
            lemma_unwritten(once, p, key);
        }
    }
    assert(twice =~= once);
}

proof fn lemma_apply_row(s: StoreView, r: HostRecord)
    ensures
        ({
            let k = encode_utf8(r.id);
            apply_puts(s, row_puts(r)) == s.insert((Column::Presence, k), seq![]).insert(
                (Column::Ports, k),
                encode_utf8(ports_text(r.ports)),
            ).insert((Column::Services, k), encode_utf8(r.services))
        }),
{
    let p = row_puts(r);
    let p2 = p.drop_last();
    let p1 = p2.drop_last();
    let p0 = p1.drop_last();
    assert(p0 =~= Seq::<PutView>::empty());
    assert(p1.last() == p[0]);
    assert(p2.last() == p[1]);
    assert(apply_puts(s, p0) == s);
    assert(apply_puts(s, p1) == apply_puts(s, p0).insert((p[0].column, p[0].key), p[0].value));
    assert(apply_puts(s, p2) == apply_puts(s, p1).insert((p[1].column, p[1].key), p[1].value));
    assert(apply_puts(s, p) == apply_puts(s, p2).insert((p[2].column, p[2].key), p[2].value));
}

/// After saving `rows`, each row that no later row overwrites reads back as it
/// was saved: its key is present, its ports and services are as written.
pub proof fn lemma_saved_row_readable(s: StoreView, rows: Seq<HostRecord>, i: int)
    requires
        0 <= i < rows.len(),
        forall|j: int| i < j < rows.len() ==> #[trigger] rows[j].id != rows[i].id,
    ensures
        stored_row(apply_puts(s, rows_puts(rows)), rows[i].id) == Some(rows[i]),
    decreases rows.len(),
{
    let r = rows[i];
    let k = encode_utf8(r.id);
    let last = rows.last();
    let init = rows.drop_last();
    let before = apply_puts(s, rows_puts(init));
    lemma_apply_concat(s, rows_puts(init), row_puts(last));
    lemma_apply_row(before, last);
    let after = apply_puts(s, rows_puts(rows));
    if i == rows.len() - 1 {
        encode_utf8_valid_utf8(ports_text(r.ports));
        encode_utf8_decode_utf8(ports_text(r.ports));
        encode_utf8_valid_utf8(r.services);
        encode_utf8_decode_utf8(r.services);
        lemma_split_nums_joined(r.ports);
        assert(lookup(after, Column::Ports, k) == Some(encode_utf8(ports_text(r.ports))));
        assert(lookup(after, Column::Services, k) == Some(encode_utf8(r.services)));
    } else {
        let lk = encode_utf8(last.id);
        assert(last == rows[rows.len() - 1]);
        encode_utf8_decode_utf8(last.id);
        encode_utf8_decode_utf8(r.id);
        assert(lk != k);
        assert forall|j: int| i < j < init.len() implies #[trigger] init[j].id != init[i].id by {
            assert(init[j] == rows[j]);
        }
        lemma_saved_row_readable(s, init, i);
        assert(init[i] == r);
        assert(lookup(after, Column::Ports, k) == lookup(before, Column::Ports, k));
        assert(lookup(after, Column::Services, k) == lookup(before, Column::Services, k));
        assert(after.contains_key((Column::Presence, k)) == before.contains_key(
            (Column::Presence, k),
        ));
    }
}

/// A scan selects a key exactly where some scanned entry with that key, as text,
/// holds the query in its text value.
pub proof fn lemma_scan_complete(
    entries: Seq<(Seq<u8>, Seq<u8>)>,
    sub: Seq<u8>,
    key: Seq<char>,
)
    ensures
        matching_keys(entries, sub).contains(key) <==> exists|j: int|
            0 <= j < entries.len() && #[trigger] entry_matches(entries[j], sub) && decode_utf8(
                entries[j].0,
            ) == key,
    decreases entries.len(),
{
    if entries.len() > 0 {
        let d = entries.drop_last();
        lemma_scan_complete(d, sub, key);
        let prev = matching_keys(d, sub);
        let e = entries.last();
        if exists|j: int|
            0 <= j < entries.len() && #[trigger] entry_matches(entries[j], sub) && decode_utf8(
                entries[j].0,
            ) == key {
            let j = choose|j: int|
                0 <= j < entries.len() && #[trigger] entry_matches(entries[j], sub) && decode_utf8(
                    entries[j].0,
                ) == key;
            if j < d.len() {
                assert(d[j] == entries[j]);
                if entry_matches(e, sub) {
                    let x = choose|x: int| 0 <= x < prev.len() && prev[x] == key;
                    assert(prev.push(decode_utf8(e.0))[x] == key);
                }
            } else {
                assert(entries[j] == e);
                assert(matching_keys(entries, sub) == prev.push(key));
                assert(prev.push(key)[prev.len() as int] == key);
            }
        }
        if matching_keys(entries, sub).contains(key) {
            if entry_matches(e, sub) && decode_utf8(e.0) == key {
                assert(entries[entries.len() - 1] == e);
            } else if entry_matches(e, sub) {
                let m = prev.push(decode_utf8(e.0));
                let x = choose|x: int| 0 <= x < m.len() && m[x] == key;
                assert(x < prev.len());
                assert(prev[x] == key);
                let j = choose|j: int|
                    0 <= j < d.len() && #[trigger] entry_matches(d[j], sub) && decode_utf8(d[j].0)
                        == key;
                assert(entries[j] == d[j]);
            } else {
                let j = choose|j: int|
                    0 <= j < d.len() && #[trigger] entry_matches(d[j], sub) && decode_utf8(d[j].0)
                        == key;
                assert(entries[j] == d[j]);
            }
        }
    }
}

/// The empty query is held by every value: a scan for it selects every entry
/// whose key and value are text.
pub proof fn lemma_empty_query_matches_all(e: (Seq<u8>, Seq<u8>))
    ensures
        entry_matches(e, seq![]) == (valid_utf8(e.0) && valid_utf8(e.1)),
{
    assert(occurs_at(e.1, seq![], 0)) by {
        assert(e.1.subrange(0, 0) =~= Seq::<u8>::empty());
    }
}

} // verus!
