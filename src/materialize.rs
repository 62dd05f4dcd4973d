//! Flattening a forest into assembly records and parent/child entry records.

use crate::data::{FoldedData, Node};
use crate::error::Error;
use crate::ordered_level_key::{find_key, position_of_key};
use crate::rules::ItemSyncFormatRules;
use crate::value::{lemma_total_order, of_kind, value_cmp, value_eq, Value};
use std::cmp::Ordering;
use vstd::prelude::*;

verus! {

/// Bit pattern of the binary64 value 1.0, the quantity of an entry that states none.
pub const ONE_BITS: u64 = 0x3FF0_0000_0000_0000;

/// One assembly: a node that has children.
#[derive(Debug)]
pub struct BomRecord {
    pub id: Value,
    pub name: Value,
}

/// One parent/child membership edge. `entry_type` is "part" for a child without children of
/// its own and "sub-bom" otherwise; `quantity` is the bit pattern of a binary64 value.
#[derive(Debug)]
pub struct BomEntryRecord {
    pub bom_id: Value,
    pub entry_type: &'static str,
    pub entry_id: Value,
    pub quantity: u64,
}

/// The two record streams of the item sync format.
#[derive(Debug)]
pub struct ItemSyncFormat {
    pub boms: Vec<BomRecord>,
    pub bom_entries: Vec<BomEntryRecord>,
}

impl Clone for BomRecord {
    fn clone(&self) -> (r: BomRecord)
        ensures
            r == *self,
    {
        BomRecord { id: self.id.clone(), name: self.name.clone() }
    }
}

/// Positions of the relevant attributes in each row.
pub struct AttributeIndices {
    pub id: usize,
    pub name: usize,
    pub quantity: Option<usize>,
}

/// The position of an optional key among the keys, if it is given and found.
pub open spec fn find_optional_key(keys: Seq<String>, key: Option<String>) -> Option<int> {
    match key {
        Some(k) => find_key(keys, k@),
        None => None,
    }
}

/// The positions that the rules name: none when the id key is not among the keys; the name
/// falls back to the id when its key is not given or not found.
pub open spec fn indices_of(keys: Seq<String>, rules: ItemSyncFormatRules) -> Option<
    (int, int, Option<int>),
> {
    match find_key(keys, rules.id_key@) {
        None => None,
        Some(id) => Some(
            (
                id,
                match find_optional_key(keys, rules.name_key) {
                    Some(n) => n,
                    None => id,
                },
                find_optional_key(keys, rules.quantity_key),
            ),
        ),
    }
}

pub open spec fn indices_view(idx: AttributeIndices) -> (int, int, Option<int>) {
    (
        idx.id as int,
        idx.name as int,
        match idx.quantity {
            Some(q) => Some(q as int),
            None => None,
        },
    )
}

/// The quantity of an entry: the number at the quantity position, or 1.0 when there is no such
/// position, the row is too short for it, or the value there is text.
pub open spec fn quantity_of(attrs: Seq<Value>, quantity: Option<int>) -> u64 {
    match quantity {
        Some(q) => if 0 <= q < attrs.len() {
            match attrs[q] {
                Value::Number(n) => n,
                Value::Text(_) => ONE_BITS,
            }
        } else {
            ONE_BITS
        },
        None => ONE_BITS,
    }
}

/// The entry type of a node: "part" without children, "sub-bom" with.
pub open spec fn entry_type_of(n: Node) -> &'static str {
    if n.children@.len() == 0 {
        "part"
    } else {
        "sub-bom"
    }
}

/// The node's row exists and is long enough to hold a value at `k`.
pub open spec fn row_holds(recs: Seq<Vec<Value>>, n: Node, k: int) -> bool {
    n.record < recs.len() && 0 <= k < recs[n.record as int]@.len()
}

/// The entries `es` with the entry of node `n` under its parent appended, if it has one.
pub open spec fn with_entry(
    recs: Seq<Vec<Value>>,
    idx: (int, int, Option<int>),
    n: Node,
    parent: Option<Value>,
    es: Seq<BomEntryRecord>,
) -> Seq<BomEntryRecord> {
    let attrs = recs[n.record as int]@;
    match parent {
        Some(p) => es.push(
            BomEntryRecord {
                bom_id: p,
                entry_type: entry_type_of(n),
                entry_id: attrs[idx.0],
                quantity: quantity_of(attrs, idx.2),
            },
        ),
        None => es,
    }
}

/// The records that a depth-first, pre-order walk of `n` appends to `hs` and `es`, given the
/// id of its parent; none when a row is too short for the id, or for the name of a node with
/// children.
pub open spec fn walk_node(
    recs: Seq<Vec<Value>>,
    idx: (int, int, Option<int>),
    n: Node,
    parent: Option<Value>,
    hs: Seq<BomRecord>,
    es: Seq<BomEntryRecord>,
) -> Option<(Seq<BomRecord>, Seq<BomEntryRecord>)>
    decreases n, 1int,
{
    if n.record >= recs.len() || idx.0 < 0 || idx.0 >= recs[n.record as int]@.len() {
        None
    } else {
        let attrs = recs[n.record as int]@;
        let id = attrs[idx.0];
        let es1 = match parent {
            Some(p) => es.push(
                BomEntryRecord {
                    bom_id: p,
                    entry_type: entry_type_of(n),
                    entry_id: id,
                    quantity: quantity_of(attrs, idx.2),
                },
            ),
            None => es,
        };
        if n.children@.len() == 0 {
            Some((hs, es1))
        } else if idx.1 < 0 || idx.1 >= attrs.len() {
            None
        } else {
            walk_all(
                recs,
                idx,
                n.children@,
                Some(id),
                hs.push(BomRecord { id: id, name: attrs[idx.1] }),
                es1,
            )
        }
    }
}

/// The records that walking each of `ns` in order appends to `hs` and `es`.
pub open spec fn walk_all(
    recs: Seq<Vec<Value>>,
    idx: (int, int, Option<int>),
    ns: Seq<Node>,
    parent: Option<Value>,
    hs: Seq<BomRecord>,
    es: Seq<BomEntryRecord>,
) -> Option<(Seq<BomRecord>, Seq<BomEntryRecord>)>
    decreases ns, ns.len(),
{
    if ns.len() == 0 {
        Some((hs, es))
    } else {
        match walk_all(recs, idx, ns.drop_last(), parent, hs, es) {
            Some((h, e)) => walk_node(recs, idx, ns.last(), parent, h, e),
            None => None,
        }
    }
}

/// Whether `a`'s id sorts strictly before `b`'s.
pub open spec fn id_less(a: BomRecord, b: BomRecord) -> bool {
    value_cmp(a.id, b.id) == Some(Ordering::Less)
}

/// Inserts `x` into `s` after every record whose id does not sort strictly after `x`'s,
/// scanning from the end.
pub open spec fn insert_by_id(s: Seq<BomRecord>, x: BomRecord) -> Seq<BomRecord>
    decreases s.len(),
{
    if s.len() == 0 {
        seq![x]
    } else if id_less(x, s.last()) {
        insert_by_id(s.drop_last(), x).push(s.last())
    } else {
        s.push(x)
    }
}

/// The records sorted by id, incomparable ids counting as equal: an insertion sort.
pub open spec fn sort_by_id(s: Seq<BomRecord>) -> Seq<BomRecord>
    decreases s.len(),
{
    if s.len() == 0 {
        Seq::empty()
    } else {
        insert_by_id(sort_by_id(s.drop_last()), s.last())
    }
}

/// The records with each run of equal ids cut down to its first record.
pub open spec fn dedup_by_id(s: Seq<BomRecord>) -> Seq<BomRecord>
    decreases s.len(),
{
    if s.len() == 0 {
        Seq::empty()
    } else {
        let d = dedup_by_id(s.drop_last());
        if d.len() > 0 && value_eq(s.last().id, d.last().id) {
            d
        } else {
            d.push(s.last())
        }
    }
}

/// What materializing `folded` by `rules` gives: an invalid-argument error when the id key is
/// not found or a row is too short; otherwise the assemblies, sorted and deduplicated by id,
/// and the entries in walk order.
pub open spec fn materializes_to(
    folded: FoldedData,
    rules: ItemSyncFormatRules,
    r: Result<ItemSyncFormat, Error>,
) -> bool {
    match indices_of(folded.attribute_keys@, rules) {
        None => r matches Err(e) && e is InvalidArgument,
        Some(idx) => match walk_all(
            folded.records@,
            idx,
            folded.top_level_nodes@,
            None,
            Seq::empty(),
            Seq::empty(),
        ) {
            None => r matches Err(e) && e is InvalidArgument,
            Some((hs, es)) => r matches Ok(out) && out.boms@ == dedup_by_id(sort_by_id(hs))
                && out.bom_entries@ == es,
        },
    }
}

fn position_of_optional_key(keys: &Vec<String>, key: &Option<String>) -> (r: Option<usize>)
    ensures
        match r {
            Some(i) => find_optional_key(keys@, *key) == Some(i as int),
            None => find_optional_key(keys@, *key) is None,
        },
{
    match key {
        Some(k) => position_of_key(keys, k.as_str()),
        None => None,
    }
}

impl AttributeIndices {
    /// Resolves the keys that the rules name to positions in the folded data's keys.
    pub fn new(folded_data: &FoldedData, rules: &ItemSyncFormatRules) -> (r: Result<Self, Error>)
        ensures
            match indices_of(folded_data.attribute_keys@, *rules) {
                None => r matches Err(e) && e is InvalidArgument,
                Some(idx) => r matches Ok(a) && indices_view(a) == idx,
            },
    {
        let id = match position_of_key(folded_data.attribute_keys, rules.id_key.as_str()) {
            Some(i) => i,
            None => {
                return Err(Error::invalid_argument("id_key not found in folded data"));
            },
        };
        let name = match position_of_optional_key(folded_data.attribute_keys, &rules.name_key) {
            Some(i) => i,
            None => id,
        };
        let quantity = position_of_optional_key(folded_data.attribute_keys, &rules.quantity_key);
        Ok(AttributeIndices { id, name, quantity })
    }
}

/// The quantity of an entry for a node with these attributes.
pub fn entry_quantity(attributes: &Vec<Value>, quantity: Option<usize>) -> (r: u64)
    ensures
        r == quantity_of(
            attributes@,
            match quantity {
                Some(q) => Some(q as int),
                None => None,
            },
        ),
{
    match quantity {
        Some(q) => if q < attributes.len() {
            match &attributes[q] {
                Value::Number(n) => *n,
                Value::Text(_) => ONE_BITS,
            }
        } else {
            ONE_BITS
        },
        None => ONE_BITS,
    }
}

/// Walking a sequence of nodes fails once walking a prefix of it has failed.
proof fn lemma_walk_all_fails(
    recs: Seq<Vec<Value>>,
    idx: (int, int, Option<int>),
    ns: Seq<Node>,
    j: int,
    parent: Option<Value>,
    hs: Seq<BomRecord>,
    es: Seq<BomEntryRecord>,
)
    requires
        0 <= j <= ns.len(),
        walk_all(recs, idx, ns.subrange(0, j), parent, hs, es) is None,
    ensures
        walk_all(recs, idx, ns, parent, hs, es) is None,
    decreases ns.len() - j,
{
    if j < ns.len() {
        assert(ns.subrange(0, j + 1).drop_last() =~= ns.subrange(0, j));
        lemma_walk_all_fails(recs, idx, ns, j + 1, parent, hs, es);
    } else {
        assert(ns.subrange(0, j) =~= ns);
    }
}

impl ItemSyncFormat {
    /// Appends the records of `node` and its subtree, depth first and in pre-order: an entry
    /// under its parent, if it has one, and, when it has children, an assembly record.
    fn recursively_make_records(
        boms: &mut Vec<BomRecord>,
        bom_entries: &mut Vec<BomEntryRecord>,
        indices: &AttributeIndices,
        records: &Vec<Vec<Value>>,
        node: &Node,
        parent_node_id: Option<&Value>,
    ) -> (r: Result<(), Error>)
        ensures
            match walk_node(
                records@,
                indices_view(*indices),
                *node,
                match parent_node_id {
                    Some(p) => Some(*p),
                    None => None,
                },
                old(boms)@,
                old(bom_entries)@,
            ) {
                None => r matches Err(e) && e is InvalidArgument,
                Some((h, e)) => r is Ok && final(boms)@ == h && final(bom_entries)@ == e,
            },
            !row_holds(records@, *node, indices.id as int) ==> final(boms)@ == old(boms)@
                && final(bom_entries)@ == old(bom_entries)@,
            row_holds(records@, *node, indices.id as int) && node.children@.len() > 0
                && !row_holds(records@, *node, indices.name as int) ==> final(boms)@ == old(boms)@
                && final(bom_entries)@ == with_entry(
                records@,
                indices_view(*indices),
                *node,
                match parent_node_id {
                    Some(p) => Some(*p),
                    None => None,
                },
                old(bom_entries)@,
            ),
        decreases *node,
    {
        let ghost idx = indices_view(*indices);
        let ghost hs_in = boms@;
        let ghost es_in = bom_entries@;
        let ghost parent = match parent_node_id {
            Some(p) => Some(*p),
            None => None,
        };
        if node.record >= records.len() || indices.id >= records[node.record].len() {
            return Err(Error::invalid_argument("Node is missing id"));
        }
        let attributes = &records[node.record];
        let node_id = &attributes[indices.id];
        let is_part = node.children.len() == 0;
        let entry_type = if is_part {
            "part"
        } else {
            "sub-bom"
        };
        if let Some(parent_node_id) = parent_node_id {
            bom_entries.push(
                BomEntryRecord {
                    bom_id: parent_node_id.clone(),
                    entry_type,
                    entry_id: node_id.clone(),
                    quantity: entry_quantity(attributes, indices.quantity),
                },
            );
        }
        if is_part {
            return Ok(());
        }
        if indices.name >= attributes.len() {
            return Err(Error::invalid_argument("Unable to find name field in BOM node."));
        }
        boms.push(BomRecord { id: node_id.clone(), name: attributes[indices.name].clone() });
        let ghost h0 = boms@;
        let ghost e0 = bom_entries@;
        let mut j: usize = 0;
        proof {
            assert(node.children@.subrange(0, 0) =~= Seq::<Node>::empty());
            assert(walk_node(records@, idx, *node, parent, hs_in, es_in) == walk_all(
                records@,
                idx,
                node.children@,
                Some(*node_id),
                h0,
                e0,
            ));
        }
        while j < node.children.len()
            invariant
                j <= node.children@.len(),
                idx == indices_view(*indices),
                row_holds(records@, *node, indices.id as int),
                row_holds(records@, *node, indices.name as int),
                old(boms)@ == hs_in,
                old(bom_entries)@ == es_in,
                parent == match parent_node_id {
                    Some(p) => Some(*p),
                    None => None,
                },
                walk_node(records@, idx, *node, parent, hs_in, es_in) == walk_all(
                    records@,
                    idx,
                    node.children@,
                    Some(*node_id),
                    h0,
                    e0,
                ),
                walk_all(records@, idx, node.children@.subrange(0, j as int), Some(*node_id), h0, e0)
                    == Some((boms@, bom_entries@)),
            decreases node.children@.len() - j,
        {
            let child = &node.children[j];
            let ghost hb = boms@;
            let ghost eb = bom_entries@;
            proof {
                assert(node.children@.subrange(0, j + 1).drop_last() =~= node.children@.subrange(0, j as int));
                assert(node.children@.subrange(0, j + 1).last() == node.children@[j as int]);
            }
            let res = Self::recursively_make_records(
                boms,
                bom_entries,
                indices,
                records,
                child,
                Some(node_id),
            );
            if res.is_err() {
                proof {
                    assert(walk_node(records@, idx, *child, Some(*node_id), hb, eb) is None);
                    assert(walk_all(records@, idx, node.children@.subrange(0, j + 1), Some(*node_id), h0, e0) is None);
                    lemma_walk_all_fails(records@, idx, node.children@, j + 1, Some(*node_id), h0, e0);
                    assert(walk_all(records@, idx, node.children@, Some(*node_id), h0, e0) is None);
                    assert(walk_node(records@, idx, *node, parent, hs_in, es_in) is None);
                }
                return res;
            }
            j = j + 1;
        }
        proof {
            assert(node.children@.subrange(0, j as int) =~= node.children@);
        }
        Ok(())
    }
}

fn id_is_less(a: &BomRecord, b: &BomRecord) -> (r: bool)
    ensures
        r == id_less(*a, *b),
{
    match a.id.compare(&b.id) {
        Some(Ordering::Less) => true,
        _ => false,
    }
}

/// Inserting where the scan from the end stops is what `insert_by_id` does.
proof fn lemma_insert_at(s: Seq<BomRecord>, x: BomRecord, p: int)
    requires
        0 <= p <= s.len(),
        forall|q: int| p <= q < s.len() ==> id_less(x, #[trigger] s[q]),
        p == 0 || !id_less(x, s[p - 1]),
    ensures
        insert_by_id(s, x) == s.insert(p, x),
    decreases s.len(),
{
    if s.len() == 0 {
        assert(s.insert(p, x) =~= seq![x]);
    } else if p == s.len() {
        assert(s.insert(p, x) =~= s.push(x));
    } else {
        assert(id_less(x, s[s.len() - 1]));
        let t = s.drop_last();
        assert forall|q: int| p <= q < t.len() implies id_less(x, #[trigger] t[q]) by {
            assert(t[q] == s[q]);
        }
        if p > 0 {
            assert(t[p - 1] == s[p - 1]);
        }
        lemma_insert_at(t, x, p);
        assert(t.insert(p, x).push(s.last()) =~= s.insert(p, x));
    }
}

/// Inserts a record into records sorted by id, after every record whose id does not sort
/// strictly after its own.
fn insert_sorted(sorted: &mut Vec<BomRecord>, x: BomRecord)
    ensures
        final(sorted)@ == insert_by_id(old(sorted)@, x),
{
    let mut p: usize = sorted.len();
    while p > 0 && id_is_less(&x, &sorted[p - 1])
        invariant
            p <= sorted@.len(),
            sorted@ == old(sorted)@,
            forall|q: int| p <= q < sorted@.len() ==> id_less(x, #[trigger] sorted@[q]),
        decreases p,
    {
        p = p - 1;
    }
    proof {
        lemma_insert_at(sorted@, x, p as int);
    }
    sorted.insert(p, x);
}

/// Sorts records by id, counting incomparable ids as equal.
pub fn sort_headers(boms: &Vec<BomRecord>) -> (r: Vec<BomRecord>)
    ensures
        r@ == sort_by_id(boms@),
{
    let mut sorted: Vec<BomRecord> = Vec::new();
    let mut i: usize = 0;
    proof {
        assert(boms@.subrange(0, 0) =~= Seq::<BomRecord>::empty());
    }
    while i < boms.len()
        invariant
            i <= boms@.len(),
            sorted@ == sort_by_id(boms@.subrange(0, i as int)),
        decreases boms@.len() - i,
    {
        proof {
            assert(boms@.subrange(0, i + 1).drop_last() =~= boms@.subrange(0, i as int));
            assert(boms@.subrange(0, i + 1).last() == boms@[i as int]);
        }
        insert_sorted(&mut sorted, boms[i].clone());
        i = i + 1;
    }
    proof {
        assert(boms@.subrange(0, i as int) =~= boms@);
    }
    sorted
}

/// Cuts each run of records with equal ids down to its first record.
pub fn dedup_headers(boms: &Vec<BomRecord>) -> (r: Vec<BomRecord>)
    ensures
        r@ == dedup_by_id(boms@),
{
    let mut kept: Vec<BomRecord> = Vec::new();
    let mut i: usize = 0;
    proof {
        assert(boms@.subrange(0, 0) =~= Seq::<BomRecord>::empty());
    }
    while i < boms.len()
        invariant
            i <= boms@.len(),
            kept@ == dedup_by_id(boms@.subrange(0, i as int)),
        decreases boms@.len() - i,
    {
        proof {
            assert(boms@.subrange(0, i + 1).drop_last() =~= boms@.subrange(0, i as int));
            assert(boms@.subrange(0, i + 1).last() == boms@[i as int]);
        }
        let n = kept.len();
        if n == 0 || !boms[i].id.equals(&kept[n - 1].id) {
            kept.push(boms[i].clone());
        }
        i = i + 1;
    }
    proof {
        assert(boms@.subrange(0, i as int) =~= boms@);
    }
    kept
}

impl ItemSyncFormat {
    /// Converts the folded data into the item sync format: the assemblies, sorted by id with
    /// duplicate ids removed, and every parent/child entry in depth-first pre-order.
    pub fn format_item_sync(folded_data: &FoldedData, rules: &ItemSyncFormatRules) -> (r: Result<
        ItemSyncFormat,
        Error,
    >)
        ensures
            materializes_to(*folded_data, *rules, r),
    {
        let indices = match AttributeIndices::new(folded_data, rules) {
            Ok(i) => i,
            Err(e) => {
                return Err(e);
            },
        };
        let ghost idx = indices_view(indices);
        let ghost recs = folded_data.records@;
        let ghost top = folded_data.top_level_nodes@;
        let mut boms: Vec<BomRecord> = Vec::new();
        let mut bom_entries: Vec<BomEntryRecord> = Vec::new();
        let mut j: usize = 0;
        proof {
            assert(top.subrange(0, 0) =~= Seq::<Node>::empty());
        }
        while j < folded_data.top_level_nodes.len()
            invariant
                j <= top.len(),
                top == folded_data.top_level_nodes@,
                recs == folded_data.records@,
                idx == indices_view(indices),
                indices_of(folded_data.attribute_keys@, *rules) == Some(idx),
                walk_all(recs, idx, top.subrange(0, j as int), None, Seq::empty(), Seq::empty())
                    == Some((boms@, bom_entries@)),
            decreases top.len() - j,
        {
            let ghost hb = boms@;
            let ghost eb = bom_entries@;
            proof {
                assert(top.subrange(0, j + 1).drop_last() =~= top.subrange(0, j as int));
                assert(top.subrange(0, j + 1).last() == top[j as int]);
            }
            let res = Self::recursively_make_records(
                &mut boms,
                &mut bom_entries,
                &indices,
                folded_data.records,
                &folded_data.top_level_nodes[j],
                None,
            );
            match res {
                Ok(()) => {},
                Err(e) => {
                    proof {
                        assert(walk_node(recs, idx, top[j as int], None, hb, eb) is None);
                        lemma_walk_all_fails(recs, idx, top, j + 1, None, Seq::empty(), Seq::empty());
                    }
                    return Err(e);
                },
            }
            j = j + 1;
        }
        proof {
            assert(top.subrange(0, j as int) =~= top);
        }
        let sorted = sort_headers(&boms);
        let boms = dedup_headers(&sorted);
        Ok(ItemSyncFormat { boms, bom_entries })
    }
}

/// Walking a node only appends to the records already there.
proof fn lemma_walk_node_extends(
    recs: Seq<Vec<Value>>,
    idx: (int, int, Option<int>),
    n: Node,
    parent: Option<Value>,
    hs: Seq<BomRecord>,
    es: Seq<BomEntryRecord>,
)
    requires
        walk_node(recs, idx, n, parent, hs, es) is Some,
    ensures
        ({
            let (h, e) = walk_node(recs, idx, n, parent, hs, es)->Some_0;
            hs.len() <= h.len() && h.subrange(0, hs.len() as int) == hs && es.len() <= e.len()
                && e.subrange(0, es.len() as int) == es
        }),
    decreases n, 1int,
{
    let attrs = recs[n.record as int]@;
    let id = attrs[idx.0];
    let es1 = match parent {
        Some(p) => es.push(
            BomEntryRecord {
                bom_id: p,
                entry_type: entry_type_of(n),
                entry_id: id,
                quantity: quantity_of(attrs, idx.2),
            },
        ),
        None => es,
    };
    assert(es1.subrange(0, es.len() as int) =~= es);
    if n.children@.len() == 0 {
        assert(hs.subrange(0, hs.len() as int) =~= hs);
    } else {
        let hs1 = hs.push(BomRecord { id: id, name: attrs[idx.1] });
        lemma_walk_all_extends(recs, idx, n.children@, Some(id), hs1, es1);
        let (h, e) = walk_node(recs, idx, n, parent, hs, es)->Some_0;
        assert(h.subrange(0, hs.len() as int) =~= h.subrange(0, hs1.len() as int).subrange(0, hs.len() as int));
        assert(hs1.subrange(0, hs.len() as int) =~= hs);
        assert(e.subrange(0, es.len() as int) =~= e.subrange(0, es1.len() as int).subrange(0, es.len() as int));
    }
}

/// Walking a sequence of nodes only appends to the records already there.
proof fn lemma_walk_all_extends(
    recs: Seq<Vec<Value>>,
    idx: (int, int, Option<int>),
    ns: Seq<Node>,
    parent: Option<Value>,
    hs: Seq<BomRecord>,
    es: Seq<BomEntryRecord>,
)
    requires
        walk_all(recs, idx, ns, parent, hs, es) is Some,
    ensures
        ({
            let (h, e) = walk_all(recs, idx, ns, parent, hs, es)->Some_0;
            hs.len() <= h.len() && h.subrange(0, hs.len() as int) == hs && es.len() <= e.len()
                && e.subrange(0, es.len() as int) == es
        }),
    decreases ns, ns.len(),
{
    if ns.len() == 0 {
        assert(hs.subrange(0, hs.len() as int) =~= hs);
        assert(es.subrange(0, es.len() as int) =~= es);
    } else {
        lemma_walk_all_extends(recs, idx, ns.drop_last(), parent, hs, es);
        let (h1, e1) = walk_all(recs, idx, ns.drop_last(), parent, hs, es)->Some_0;
        lemma_walk_node_extends(recs, idx, ns.last(), parent, h1, e1);
        let (h, e) = walk_all(recs, idx, ns, parent, hs, es)->Some_0;
        assert(h.subrange(0, hs.len() as int) =~= h.subrange(0, h1.len() as int).subrange(0, hs.len() as int));
        assert(e.subrange(0, es.len() as int) =~= e.subrange(0, e1.len() as int).subrange(0, es.len() as int));
    }
}

/// A node without children adds no assembly record, and its entry under its parent, if it has
/// one, is a "part"; a node with children adds one assembly record for itself, ahead of those
/// of its subtree, and its entry under its parent, if it has one, is a "sub-bom". The entry
/// comes first, with the node's quantity.
pub proof fn lemma_part_and_sub_bom(
    recs: Seq<Vec<Value>>,
    idx: (int, int, Option<int>),
    n: Node,
    parent: Option<Value>,
    hs: Seq<BomRecord>,
    es: Seq<BomEntryRecord>,
)
    requires
        walk_node(recs, idx, n, parent, hs, es) is Some,
    ensures
        ({
            let (h, e) = walk_node(recs, idx, n, parent, hs, es)->Some_0;
            let attrs = recs[n.record as int]@;
            &&& n.children@.len() == 0 ==> h == hs
            &&& n.children@.len() > 0 ==> hs.len() < h.len() && h.subrange(0, hs.len() as int)
                == hs && h[hs.len() as int] == BomRecord { id: attrs[idx.0], name: attrs[idx.1] }
            &&& parent is None ==> e.len() >= es.len()
            &&& parent matches Some(p) ==> es.len() < e.len() && e[es.len() as int] == BomEntryRecord {
                bom_id: p,
                entry_type: if n.children@.len() == 0 {
                    "part"
                } else {
                    "sub-bom"
                },
                entry_id: attrs[idx.0],
                quantity: quantity_of(attrs, idx.2),
            }
        }),
{
    lemma_walk_node_extends(recs, idx, n, parent, hs, es);
    let attrs = recs[n.record as int]@;
    let id = attrs[idx.0];
    let es1 = match parent {
        Some(p) => es.push(
            BomEntryRecord {
                bom_id: p,
                entry_type: entry_type_of(n),
                entry_id: id,
                quantity: quantity_of(attrs, idx.2),
            },
        ),
        None => es,
    };
    if n.children@.len() > 0 {
        let hs1 = hs.push(BomRecord { id: id, name: attrs[idx.1] });
        lemma_walk_all_extends(recs, idx, n.children@, Some(id), hs1, es1);
        let (h, e) = walk_node(recs, idx, n, parent, hs, es)->Some_0;
        assert(h[hs.len() as int] == h.subrange(0, hs1.len() as int)[hs.len() as int]);
        assert(e.subrange(0, es1.len() as int) == es1);
        if parent is Some {
            assert(e[es.len() as int] == e.subrange(0, es1.len() as int)[es.len() as int]);
        }
    }
}

/// Materializing the same forest twice with the same rules gives the same outcome, and, when
/// it succeeds, the same records in the same order.
pub proof fn lemma_materialize_deterministic(
    folded: FoldedData,
    rules: ItemSyncFormatRules,
    r1: Result<ItemSyncFormat, Error>,
    r2: Result<ItemSyncFormat, Error>,
)
    requires
        materializes_to(folded, rules, r1),
        materializes_to(folded, rules, r2),
    ensures
        r1 is Ok <==> r2 is Ok,
        r1 matches Ok(a) ==> (r2 matches Ok(b) && a.boms@ == b.boms@ && a.bom_entries@
            == b.bom_entries@),
{
}

/// Every record's id is of one totally ordered kind: all text, or all numbers other than NaN.
pub open spec fn ids_of_kind(s: Seq<BomRecord>, text: bool) -> bool {
    forall|i: int| 0 <= i < s.len() ==> of_kind(#[trigger] s[i].id, text)
}

/// No record's id sorts strictly before that of a record ahead of it.
pub open spec fn sorted_by_id(s: Seq<BomRecord>) -> bool {
    forall|i: int, j: int| 0 <= i < j < s.len() ==> !id_less(#[trigger] s[j], #[trigger] s[i])
}

/// Where `insert_by_id` puts `x`.
spec fn insert_pos(s: Seq<BomRecord>, x: BomRecord) -> int
    decreases s.len(),
{
    if s.len() == 0 {
        0
    } else if id_less(x, s.last()) {
        insert_pos(s.drop_last(), x)
    } else {
        s.len() as int
    }
}

proof fn lemma_insert_pos(s: Seq<BomRecord>, x: BomRecord)
    ensures
        0 <= insert_pos(s, x) <= s.len(),
        forall|q: int| insert_pos(s, x) <= q < s.len() ==> id_less(x, #[trigger] s[q]),
        insert_pos(s, x) == 0 || !id_less(x, s[insert_pos(s, x) - 1]),
    decreases s.len(),
{
    if s.len() > 0 && id_less(x, s.last()) {
        let t = s.drop_last();
        lemma_insert_pos(t, x);
        let p = insert_pos(s, x);
        assert forall|q: int| p <= q < s.len() implies id_less(x, #[trigger] s[q]) by {
            if q < t.len() {
                assert(s[q] == t[q]);
            }
        }
        if p > 0 {
            assert(s[p - 1] == t[p - 1]);
        }
    }
}

/// Inserting a record with a text id into records sorted by text ids keeps them sorted and
/// keeps every record.
proof fn lemma_insert_sorted(s: Seq<BomRecord>, x: BomRecord, text: bool)
    requires
        sorted_by_id(s),
        ids_of_kind(s, text),
        of_kind(x.id, text),
    ensures
        sorted_by_id(insert_by_id(s, x)),
        ids_of_kind(insert_by_id(s, x), text),
        insert_by_id(s, x).contains(x),
        forall|j: int| 0 <= j < s.len() ==> insert_by_id(s, x).contains(#[trigger] s[j]),
{
    lemma_insert_pos(s, x);
    let p = insert_pos(s, x);
    lemma_insert_at(s, x, p);
    let r = s.insert(p, x);
    assert(r[p] == x);
    assert forall|j: int| 0 <= j < s.len() implies r.contains(#[trigger] s[j]) by {
        if j < p {
            assert(r[j] == s[j]);
        } else {
            assert(r[j + 1] == s[j]);
        }
    }
    assert forall|i: int| 0 <= i < r.len() implies of_kind(#[trigger] r[i].id, text) by {
        if i < p {
            assert(r[i] == s[i]);
        } else if i > p {
            assert(r[i] == s[i - 1]);
        }
    }
    assert forall|i: int, j: int| 0 <= i < j < r.len() implies !id_less(#[trigger] r[j], #[trigger] r[i]) by {
        if j < p {
            assert(r[i] == s[i] && r[j] == s[j]);
        } else if i > p {
            assert(r[i] == s[i - 1] && r[j] == s[j - 1]);
        } else if i == p {
            assert(r[j] == s[j - 1]);
            lemma_total_order(x.id, s[j - 1].id, x.id, text);
        } else if j == p {
            assert(r[i] == s[i]);
            lemma_total_order(s[i].id, s[p - 1].id, x.id, text);
            lemma_total_order(x.id, s[p - 1].id, s[i].id, text);
            lemma_total_order(s[p - 1].id, s[i].id, x.id, text);
            lemma_total_order(x.id, s[i].id, x.id, text);
        } else {
            assert(r[i] == s[i] && r[j] == s[j - 1]);
        }
    }
}

/// Sorting records with text ids gives sorted records and keeps every record.
proof fn lemma_sort_sorted(s: Seq<BomRecord>, text: bool)
    requires
        ids_of_kind(s, text),
    ensures
        sorted_by_id(sort_by_id(s)),
        ids_of_kind(sort_by_id(s), text),
        forall|j: int| 0 <= j < s.len() ==> sort_by_id(s).contains(#[trigger] s[j]),
    decreases s.len(),
{
    if s.len() > 0 {
        let t = s.drop_last();
        assert forall|i: int| 0 <= i < t.len() implies of_kind(#[trigger] t[i].id, text) by {
            assert(t[i] == s[i]);
        }
        lemma_sort_sorted(t, text);
        let st = sort_by_id(t);
        lemma_insert_sorted(st, s.last(), text);
        assert forall|j: int| 0 <= j < s.len() implies sort_by_id(s).contains(#[trigger] s[j]) by {
            if j < t.len() {
                assert(t[j] == s[j]);
                assert(st.contains(t[j]));
                let k = choose|k: int| 0 <= k < st.len() && st[k] == t[j];
                assert(insert_by_id(st, s.last()).contains(st[k]));
            }
        }
    }
}

/// Cutting runs of equal text ids out of sorted records leaves ids that strictly increase, and
/// every id of the records among them.
proof fn lemma_dedup_unique(s: Seq<BomRecord>, text: bool)
    requires
        sorted_by_id(s),
        ids_of_kind(s, text),
    ensures
        ids_of_kind(dedup_by_id(s), text),
        s.len() > 0 ==> dedup_by_id(s).len() > 0 && value_eq(dedup_by_id(s).last().id, s.last().id),
        forall|i: int, j: int|
            0 <= i < j < dedup_by_id(s).len() ==> id_less(
                #[trigger] dedup_by_id(s)[i],
                #[trigger] dedup_by_id(s)[j],
            ),
        forall|j: int|
            0 <= j < s.len() ==> exists|i: int|
                0 <= i < dedup_by_id(s).len() && value_eq(
                    #[trigger] dedup_by_id(s)[i].id,
                    (#[trigger] s[j]).id,
                ),
    decreases s.len(),
{
    if s.len() > 0 {
        let t = s.drop_last();
        let x = s.last();
        assert forall|i: int| 0 <= i < t.len() implies of_kind(#[trigger] t[i].id, text) by {
            assert(t[i] == s[i]);
        }
        assert forall|i: int, j: int| 0 <= i < j < t.len() implies !id_less(#[trigger] t[j], #[trigger] t[i]) by {
            assert(t[i] == s[i] && t[j] == s[j]);
        }
        lemma_dedup_unique(t, text);
        let d = dedup_by_id(t);
        let r = dedup_by_id(s);
        lemma_total_order(x.id, x.id, x.id, text);
        if d.len() > 0 && value_eq(x.id, d.last().id) {
            lemma_total_order(x.id, d.last().id, x.id, text);
            assert forall|j: int| 0 <= j < s.len() implies exists|i: int|
                0 <= i < r.len() && value_eq(#[trigger] r[i].id, (#[trigger] s[j]).id) by {
                if j == t.len() {
                    assert(value_eq(r[r.len() - 1].id, s[j].id));
                } else {
                    assert(t[j] == s[j]);
                }
            }
        } else {
            assert(r == d.push(x));
            if d.len() > 0 {
                let y = d.last();
                let w = t.last();
                assert(!id_less(s[s.len() - 1], s[s.len() - 2]));
                lemma_total_order(y.id, w.id, x.id, text);
                lemma_total_order(w.id, x.id, y.id, text);
                lemma_total_order(x.id, w.id, y.id, text);
                lemma_total_order(y.id, x.id, w.id, text);
                assert(id_less(y, x));
                assert forall|i: int, j: int| 0 <= i < j < r.len() implies id_less(#[trigger] r[i], #[trigger] r[j]) by {
                    if j == r.len() - 1 && i < d.len() - 1 {
                        assert(id_less(d[i], y));
                        lemma_total_order(d[i].id, y.id, x.id, text);
                        lemma_total_order(y.id, x.id, d[i].id, text);
                        lemma_total_order(x.id, d[i].id, y.id, text);
                        lemma_total_order(d[i].id, x.id, y.id, text);
                    } else if j < d.len() {
                        assert(r[i] == d[i] && r[j] == d[j]);
                    }
                }
            }
            assert forall|j: int| 0 <= j < s.len() implies exists|i: int|
                0 <= i < r.len() && value_eq(#[trigger] r[i].id, (#[trigger] s[j]).id) by {
                if j == t.len() {
                    assert(value_eq(r[r.len() - 1].id, s[j].id));
                } else {
                    assert(t[j] == s[j]);
                    let i = choose|i: int| 0 <= i < d.len() && value_eq(#[trigger] d[i].id, t[j].id);
                    assert(r[i] == d[i]);
                }
            }
            assert forall|i: int| 0 <= i < r.len() implies of_kind(#[trigger] r[i].id, text) by {
                if i < d.len() {
                    assert(r[i] == d[i]);
                }
            }
        }
    }
}

/// The assembly records of a forest, before sorting, when the rules resolve and every row is
/// long enough.
pub open spec fn walk_headers(folded: FoldedData, rules: ItemSyncFormatRules) -> Option<Seq<BomRecord>> {
    match indices_of(folded.attribute_keys@, rules) {
        Some(idx) => match walk_all(
            folded.records@,
            idx,
            folded.top_level_nodes@,
            None,
            Seq::empty(),
            Seq::empty(),
        ) {
            Some((hs, es)) => Some(hs),
            None => None,
        },
        None => None,
    }
}

/// When the assemblies of the forest have ids of one totally ordered kind (all text, or all
/// numbers other than NaN), the assembly records that materializing gives have pairwise
/// distinct ids, and every assembly's id is among them: however often an id occurs, exactly
/// one record carries it.
pub proof fn lemma_header_dedup(
    folded: FoldedData,
    rules: ItemSyncFormatRules,
    r: Result<ItemSyncFormat, Error>,
    text: bool,
)
    requires
        materializes_to(folded, rules, r),
        walk_headers(folded, rules) matches Some(hs) && ids_of_kind(hs, text),
    ensures
        r matches Ok(out) && (forall|i: int, j: int|
            0 <= i < j < out.boms@.len() ==> !value_eq(
                #[trigger] out.boms@[i].id,
                #[trigger] out.boms@[j].id,
            )) && (forall|k: int|
            0 <= k < walk_headers(folded, rules)->Some_0.len() ==> exists|i: int|
                0 <= i < out.boms@.len() && value_eq(
                    #[trigger] out.boms@[i].id,
                    (#[trigger] walk_headers(folded, rules)->Some_0[k]).id,
                )),
{
    let hs = walk_headers(folded, rules)->Some_0;
    let out = r->Ok_0;
    lemma_sort_sorted(hs, text);
    let st = sort_by_id(hs);
    lemma_dedup_unique(st, text);
    let d = dedup_by_id(st);
    assert(out.boms@ == d);
    assert forall|i: int, j: int| 0 <= i < j < d.len() implies !value_eq(#[trigger] d[i].id, #[trigger] d[j].id) by {
        assert(id_less(d[i], d[j]));
        lemma_total_order(d[i].id, d[j].id, d[i].id, text);
    }
    assert forall|k: int| 0 <= k < hs.len() implies exists|i: int|
        0 <= i < d.len() && value_eq(#[trigger] d[i].id, (#[trigger] hs[k]).id) by {
        assert(st.contains(hs[k]));
        let m = choose|m: int| 0 <= m < st.len() && st[m] == hs[k];
        assert(exists|i: int| 0 <= i < d.len() && value_eq(#[trigger] d[i].id, st[m].id));
    }
}

/// An entry's quantity is 1.0 when no quantity column is configured, when the row is too
/// short for it, or when the value there is text.
pub proof fn lemma_quantity_default(attrs: Seq<Value>, quantity: Option<int>)
    requires
        quantity is None || !(0 <= quantity->Some_0 < attrs.len()) || attrs[quantity->Some_0] is Text,
    ensures
        quantity_of(attrs, quantity) == ONE_BITS,
{
}

/// When the assemblies of the forest have ids of one totally ordered kind (all text, or all
/// numbers other than NaN), the assembly records that materializing gives come out in strictly
/// increasing id order.
pub proof fn lemma_headers_sorted(
    folded: FoldedData,
    rules: ItemSyncFormatRules,
    r: Result<ItemSyncFormat, Error>,
    text: bool,
)
    requires
        materializes_to(folded, rules, r),
        walk_headers(folded, rules) matches Some(hs) && ids_of_kind(hs, text),
    ensures
        r matches Ok(out) && forall|i: int, j: int|
            0 <= i < j < out.boms@.len() ==> id_less(#[trigger] out.boms@[i], #[trigger] out.boms@[j]),
{
    let hs = walk_headers(folded, rules)->Some_0;
    lemma_sort_sorted(hs, text);
    lemma_dedup_unique(sort_by_id(hs), text);
}

/// The number of nodes with children in the subtree of `n`.
pub open spec fn assemblies_in(n: Node) -> int
    decreases n, 0int,
{
    (if n.children@.len() > 0 {
        1int
    } else {
        0int
    }) + assemblies_in_all(n.children@)
}

/// The number of nodes with children in the subtrees of `ns`.
pub open spec fn assemblies_in_all(ns: Seq<Node>) -> int
    decreases ns, ns.len(),
{
    if ns.len() == 0 {
        0
    } else {
        assemblies_in_all(ns.drop_last()) + assemblies_in(ns.last())
    }
}

/// The number of nodes in the subtrees of `ns`.
pub open spec fn nodes_in_all(ns: Seq<Node>) -> int
    decreases ns, ns.len(),
{
    if ns.len() == 0 {
        0
    } else {
        nodes_in_all(ns.drop_last()) + 1 + nodes_in_all(ns.last().children@)
    }
}

/// Every row's quantity, by the quantity position, is the default 1.0.
pub open spec fn quantities_default(recs: Seq<Vec<Value>>, idx: (int, int, Option<int>)) -> bool {
    forall|i: int| 0 <= i < recs.len() ==> quantity_of(#[trigger] recs[i]@, idx.2) == ONE_BITS
}

proof fn lemma_walk_node_counts(
    recs: Seq<Vec<Value>>,
    idx: (int, int, Option<int>),
    n: Node,
    parent: Option<Value>,
    hs: Seq<BomRecord>,
    es: Seq<BomEntryRecord>,
)
    requires
        walk_node(recs, idx, n, parent, hs, es) is Some,
    ensures
        ({
            let (h, e) = walk_node(recs, idx, n, parent, hs, es)->Some_0;
            &&& h.len() == hs.len() + assemblies_in(n)
            &&& e.len() == es.len() + (if parent is Some {
                1int
            } else {
                0int
            }) + nodes_in_all(n.children@)
            &&& quantities_default(recs, idx) ==> forall|k: int|
                es.len() <= k < e.len() ==> (#[trigger] e[k]).quantity == ONE_BITS
            &&& e.subrange(0, es.len() as int) == es
        }),
    decreases n, 1int,
{
    lemma_walk_node_extends(recs, idx, n, parent, hs, es);
    let attrs = recs[n.record as int]@;
    let id = attrs[idx.0];
    let es1 = with_entry(recs, idx, n, parent, es);
    if n.children@.len() == 0 {
        assert(nodes_in_all(n.children@) == 0 && assemblies_in_all(n.children@) == 0);
    } else {
        let hs1 = hs.push(BomRecord { id: id, name: attrs[idx.1] });
        lemma_walk_all_counts(recs, idx, n.children@, Some(id), hs1, es1);
        let (h, e) = walk_node(recs, idx, n, parent, hs, es)->Some_0;
        if quantities_default(recs, idx) {
            assert forall|k: int| es.len() <= k < e.len() implies (#[trigger] e[k]).quantity == ONE_BITS by {
                if k < es1.len() {
                    assert(e[k] == e.subrange(0, es1.len() as int)[k]);
                }
            }
        }
    }
}

proof fn lemma_walk_all_counts(
    recs: Seq<Vec<Value>>,
    idx: (int, int, Option<int>),
    ns: Seq<Node>,
    parent: Option<Value>,
    hs: Seq<BomRecord>,
    es: Seq<BomEntryRecord>,
)
    requires
        walk_all(recs, idx, ns, parent, hs, es) is Some,
    ensures
        ({
            let (h, e) = walk_all(recs, idx, ns, parent, hs, es)->Some_0;
            &&& h.len() == hs.len() + assemblies_in_all(ns)
            &&& e.len() == es.len() + (if parent is Some {
                ns.len() as int
            } else {
                0int
            }) + nodes_in_all(ns) - ns.len()
            &&& quantities_default(recs, idx) ==> forall|k: int|
                es.len() <= k < e.len() ==> (#[trigger] e[k]).quantity == ONE_BITS
            &&& e.subrange(0, es.len() as int) == es
        }),
    decreases ns, ns.len(),
{
    if ns.len() == 0 {
        assert(es.subrange(0, es.len() as int) =~= es);
    } else {
        lemma_walk_all_counts(recs, idx, ns.drop_last(), parent, hs, es);
        lemma_walk_all_extends(recs, idx, ns.drop_last(), parent, hs, es);
        let (h1, e1) = walk_all(recs, idx, ns.drop_last(), parent, hs, es)->Some_0;
        lemma_walk_node_counts(recs, idx, ns.last(), parent, h1, e1);
        lemma_walk_node_extends(recs, idx, ns.last(), parent, h1, e1);
        let (h, e) = walk_all(recs, idx, ns, parent, hs, es)->Some_0;
        assert(e.subrange(0, es.len() as int) =~= e.subrange(0, e1.len() as int).subrange(0, es.len() as int));
        if quantities_default(recs, idx) {
            assert forall|k: int| es.len() <= k < e.len() implies (#[trigger] e[k]).quantity == ONE_BITS by {
                if k < e1.len() {
                    assert(e[k] == e.subrange(0, e1.len() as int)[k]);
                }
            }
        }
    }
}

/// Over a whole forest, every node with children gives exactly one assembly record before
/// sorting, and every node but the top-level ones exactly one entry: nodes without children
/// give none of the former.
pub proof fn lemma_part_and_sub_bom_counts(
    folded: FoldedData,
    rules: ItemSyncFormatRules,
    r: Result<ItemSyncFormat, Error>,
)
    requires
        materializes_to(folded, rules, r),
        r is Ok,
    ensures
        walk_headers(folded, rules) matches Some(hs) && hs.len() == assemblies_in_all(
            folded.top_level_nodes@,
        ),
        r->Ok_0.bom_entries@.len() == nodes_in_all(folded.top_level_nodes@)
            - folded.top_level_nodes@.len(),
{
    let idx = indices_of(folded.attribute_keys@, rules)->Some_0;
    lemma_walk_all_counts(
        folded.records@,
        idx,
        folded.top_level_nodes@,
        None,
        Seq::empty(),
        Seq::empty(),
    );
}

/// When no row's quantity applies (no quantity column is configured or found, or every row's
/// value there is text or missing), every entry's quantity is 1.0.
pub proof fn lemma_quantity_default_everywhere(
    folded: FoldedData,
    rules: ItemSyncFormatRules,
    r: Result<ItemSyncFormat, Error>,
)
    requires
        materializes_to(folded, rules, r),
        indices_of(folded.attribute_keys@, rules) matches Some(idx) && quantities_default(
            folded.records@,
            idx,
        ),
    ensures
        r matches Ok(out) ==> forall|k: int|
            0 <= k < out.bom_entries@.len() ==> (#[trigger] out.bom_entries@[k]).quantity == ONE_BITS,
{
    let idx = indices_of(folded.attribute_keys@, rules)->Some_0;
    if r is Ok {
        lemma_walk_all_counts(
            folded.records@,
            idx,
            folded.top_level_nodes@,
            None,
            Seq::empty(),
            Seq::empty(),
        );
    }
}

} // verus!
