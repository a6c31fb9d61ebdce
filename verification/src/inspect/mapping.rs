//! The closed mapping catalog: each mapping projects records into a measure per group.
use crate::atom::{Atom, Edge, Payload, Source};
use crate::context::Role;
use crate::derive::{held_over, observes, tangles_over, Held, HeldView, Ledger, Tangle};
use crate::inspect::model::{Group, Measurement};
use crate::span::{add_span, refused_total, total_refused, Measure, MeasureView};
use crate::table::{in_key_order, lemma_map_at, Table};
use crate::text::text_precedes;
use crate::text::{bytes_equal, bytes_of, decimal, decimal_bytes};
use vstd::prelude::*;

verus! {

/// The most bytes of content a record contributes to prefix density.
pub const MAXIMUM: usize = 64;

/// The shortest prefix that counts.
pub const MINIMUM: usize = 8;

/// The fewest records of a group for which a dominant prefix is measured.
pub const FLOOR: u64 = 5;

/// `c` with `v` appended: nothing once `c` is full; otherwise a unit separator (31) when `c`
/// is not empty, then as much of `v` as fits under the maximum.
pub open spec fn appended(c: Seq<u8>, v: Seq<u8>) -> Seq<u8> {
    if c.len() >= 64 {
        c
    } else {
        let d = if c.len() > 0 {
            c.push(31u8)
        } else {
            c
        };
        let room = 64 - d.len();
        if v.len() <= room {
            d + v
        } else {
            d + v.take(room)
        }
    }
}

/// `c` with each of `texts` appended in turn.
pub open spec fn packed(c: Seq<u8>, texts: Seq<Seq<u8>>) -> Seq<u8>
    decreases texts.len(),
{
    if texts.len() == 0 {
        c
    } else {
        appended(packed(c, texts.drop_last()), texts.last())
    }
}

/// The scalar texts of a payload in stable order: `null`, `true`, `false`, a number's JSON
/// text or a string's characters; arrays in order, objects by their members' values.
pub open spec fn leaves(p: Payload) -> Seq<Seq<u8>>
    decreases p,
{
    match p {
        Payload::Null => seq![bytes_of("null"@)],
        Payload::Bool(b) => if b {
            seq![bytes_of("true"@)]
        } else {
            seq![bytes_of("false"@)]
        },
        Payload::Number(n) => seq![bytes_of(n@)],
        Payload::Text(s) => seq![bytes_of(s@)],
        Payload::List(items) => leaves_list(items@),
        Payload::Object(members) => leaves_members(members@),
    }
}

/// The scalar texts of a sequence of payloads, in order.
pub open spec fn leaves_list(s: Seq<Payload>) -> Seq<Seq<u8>>
    decreases s,
{
    if s.len() == 0 {
        Seq::empty()
    } else {
        leaves_list(s.subrange(0, s.len() - 1)) + leaves(s[s.len() - 1])
    }
}

/// The scalar texts of the values of a sequence of members, in order.
pub open spec fn leaves_members(s: Seq<(String, Payload)>) -> Seq<Seq<u8>>
    decreases s,
{
    if s.len() == 0 {
        Seq::empty()
    } else {
        leaves_members(s.subrange(0, s.len() - 1)) + leaves(s[s.len() - 1].1)
    }
}

/// The texts of a source location: file, module, function, edge, line and column.
pub open spec fn source_texts(s: Source) -> Seq<Seq<u8>> {
    let head = seq![bytes_of(s.file@), bytes_of(s.module@)];
    let named = match s.function {
        Some(f) => head.push(bytes_of(f@)),
        None => head,
    };
    let edged = match s.edge {
        Some(Edge::Enter) => named.push(bytes_of("enter"@)),
        Some(Edge::Return) => named.push(bytes_of("return"@)),
        None => named,
    };
    edged.push(decimal_bytes(s.line as nat)).push(decimal_bytes(s.column as nat))
}

/// The content of a record: its source texts, then its payload's scalar texts, packed; the
/// envelope, context, choices and provenance contribute nothing.
pub open spec fn content_of(atom: Atom) -> Seq<u8> {
    let sourced = match atom.spec_source() {
        Some(s) => packed(Seq::empty(), source_texts(s)),
        None => Seq::empty(),
    };
    match atom.spec_payload() {
        Some(p) => packed(sourced, leaves(p)),
        None => sourced,
    }
}

pub proof fn lemma_appended_bound(c: Seq<u8>, v: Seq<u8>)
    requires
        c.len() <= 64,
    ensures
        appended(c, v).len() <= 64,
        c.len() == 64 ==> appended(c, v) == c,
        c.len() > 0 ==> appended(c, v).len() > 0,
{
}

pub proof fn lemma_packed_bound(c: Seq<u8>, texts: Seq<Seq<u8>>)
    requires
        c.len() <= 64,
    ensures
        packed(c, texts).len() <= 64,
        c.len() == 64 ==> packed(c, texts) == c,
        c.len() > 0 ==> packed(c, texts).len() > 0,
    decreases texts.len(),
{
    if texts.len() > 0 {
        lemma_packed_bound(c, texts.drop_last());
        lemma_appended_bound(packed(c, texts.drop_last()), texts.last());
    }
}

pub proof fn lemma_packed_one(c: Seq<u8>, v: Seq<u8>)
    ensures
        packed(c, seq![v]) == appended(c, v),
{
    reveal_with_fuel(packed, 2);
    assert(seq![v].drop_last() =~= Seq::<Seq<u8>>::empty());
    assert(seq![v].last() == v);
}

pub proof fn lemma_packed_concat(c: Seq<u8>, a: Seq<Seq<u8>>, b: Seq<Seq<u8>>)
    ensures
        packed(c, a + b) == packed(packed(c, a), b),
    decreases b.len(),
{
    if b.len() == 0 {
        assert(a + b =~= a);
    } else {
        assert((a + b).drop_last() =~= a + b.drop_last());
        lemma_packed_concat(c, a, b.drop_last());
    }
}

/// Appends `value` to `content` as `appended` describes.
fn append(value: &str, content: &mut Vec<u8>)
    requires
        old(content)@.len() <= 64,
    ensures
        final(content)@ == appended(old(content)@, bytes_of(value@)),
{
    if content.len() == MAXIMUM {
        return;
    }
    if content.len() > 0 {
        content.push(31u8);
    }
    let remaining = MAXIMUM - content.len();
    let bytes = value.as_bytes();
    let n = if bytes.len() <= remaining {
        bytes.len()
    } else {
        remaining
    };
    let ghost start = content@;
    let mut i: usize = 0;
    while i < n
        invariant
            n <= bytes@.len(),
            i <= n,
            content@ == start + bytes@.take(i as int),
        decreases n - i,
    {
        content.push(bytes[i]);
        i = i + 1;
        assert(content@ =~= start + bytes@.take(i as int));
    }
    assert(bytes@.take(bytes@.len() as int) =~= bytes@);
}

/// Appends the scalar texts of `value` to `content`.
fn flatten(value: &Payload, content: &mut Vec<u8>)
    requires
        old(content)@.len() <= 64,
    ensures
        final(content)@ == packed(old(content)@, leaves(*value)),
        final(content)@.len() <= 64,
    decreases value,
{
    proof {
        lemma_packed_bound(content@, leaves(*value));
    }
    if content.len() == MAXIMUM {
        return;
    }
    match value {
        Payload::Null => {
            append("null", content);
            proof {
                lemma_packed_one(old(content)@, bytes_of("null"@));
            }
        },
        Payload::Bool(b) => {
            if *b {
                append("true", content);
                proof {
                    lemma_packed_one(old(content)@, bytes_of("true"@));
                }
            } else {
                append("false", content);
                proof {
                    lemma_packed_one(old(content)@, bytes_of("false"@));
                }
            }
        },
        Payload::Number(n) => {
            append(n.as_str(), content);
            proof {
                lemma_packed_one(old(content)@, bytes_of(n@));
            }
        },
        Payload::Text(s) => {
            append(s.as_str(), content);
            proof {
                lemma_packed_one(old(content)@, bytes_of(s@));
            }
        },
        Payload::List(items) => {
            let ghost start = content@;
            let mut i: usize = 0;
            while i < items.len()
                invariant
                    i <= items@.len(),
                    *value is List,
                    value->List_0 == *items,
                    start.len() <= 64,
                    content@.len() <= 64,
                    content@ == packed(start, leaves_list(items@.subrange(0, i as int))),
                decreases items@.len() - i,
            {
                proof {
                    assert(decreases_to!(*value => value->List_0));
                    assert(decreases_to!(*items => items@));
                    assert(decreases_to!(items@ => items@[i as int]));
                    assert(decreases_to!(*value => items@[i as int]));
                }
                flatten(&items[i], content);
                proof {
                    let t = items@.subrange(0, i + 1);
                    assert(t.subrange(0, t.len() - 1) =~= items@.subrange(0, i as int));
                    lemma_packed_concat(
                        start,
                        leaves_list(items@.subrange(0, i as int)),
                        leaves(items@[i as int]),
                    );
                }
                i = i + 1;
            }
            assert(items@.subrange(0, items@.len() as int) =~= items@);
        },
        Payload::Object(members) => {
            let ghost start = content@;
            let mut i: usize = 0;
            while i < members.len()
                invariant
                    i <= members@.len(),
                    *value is Object,
                    value->Object_0 == *members,
                    start.len() <= 64,
                    content@.len() <= 64,
                    content@ == packed(start, leaves_members(members@.subrange(0, i as int))),
                decreases members@.len() - i,
            {
                proof {
                    assert(decreases_to!(*value => value->Object_0));
                    assert(decreases_to!(*members => members@));
                    assert(decreases_to!(members@ => members@[i as int]));
                    assert(decreases_to!(members@[i as int] => members@[i as int].1));
                    assert(decreases_to!(*value => members@[i as int].1));
                }
                flatten(&members[i].1, content);
                proof {
                    let t = members@.subrange(0, i + 1);
                    assert(t.subrange(0, t.len() - 1) =~= members@.subrange(0, i as int));
                    lemma_packed_concat(
                        start,
                        leaves_members(members@.subrange(0, i as int)),
                        leaves(members@[i as int].1),
                    );
                }
                i = i + 1;
            }
            assert(members@.subrange(0, members@.len() as int) =~= members@);
        },
    }
}

/// The content of a record, when it has any.
pub fn content(atom: &Atom) -> (r: Option<Vec<u8>>)
    ensures
        r is Some <==> content_of(*atom).len() > 0,
        r matches Some(c) ==> c@ == content_of(*atom),
        content_of(*atom).len() <= 64,
{
    let mut content: Vec<u8> = Vec::new();
    match atom.source() {
        Some(source) => {
            let ghost s = *source;
            append(source.file.as_str(), &mut content);
            append(source.module.as_str(), &mut content);
            let ghost head = seq![bytes_of(s.file@), bytes_of(s.module@)];
            proof {
                lemma_packed_one(Seq::empty(), bytes_of(s.file@));
                assert(head.drop_last() =~= seq![bytes_of(s.file@)]);
                lemma_appended_bound(Seq::empty(), bytes_of(s.file@));
                lemma_appended_bound(packed(Seq::empty(), seq![bytes_of(s.file@)]), bytes_of(s.module@));
            }
            assert(content@ == packed(Seq::empty(), head));
            let ghost named = match s.function {
                Some(f) => head.push(bytes_of(f@)),
                None => head,
            };
            match &source.function {
                Some(function) => {
                    append(function.as_str(), &mut content);
                    assert(named.drop_last() =~= head);
                },
                None => {},
            }
            proof {
                lemma_packed_bound(Seq::empty(), named);
            }
            let ghost edged = match s.edge {
                Some(Edge::Enter) => named.push(bytes_of("enter"@)),
                Some(Edge::Return) => named.push(bytes_of("return"@)),
                None => named,
            };
            match &source.edge {
                Some(Edge::Enter) => {
                    append("enter", &mut content);
                    assert(edged.drop_last() =~= named);
                },
                Some(Edge::Return) => {
                    append("return", &mut content);
                    assert(edged.drop_last() =~= named);
                },
                None => {},
            }
            proof {
                lemma_packed_bound(Seq::empty(), edged);
            }
            let line = decimal(source.line as u64);
            append(line.as_str(), &mut content);
            let ghost lined = edged.push(decimal_bytes(s.line as nat));
            assert(lined.drop_last() =~= edged);
            proof {
                lemma_packed_bound(Seq::empty(), lined);
            }
            let column = decimal(source.column as u64);
            append(column.as_str(), &mut content);
            let ghost all = lined.push(decimal_bytes(s.column as nat));
            assert(all.drop_last() =~= lined);
            assert(all == source_texts(s));
        },
        None => {},
    }
    let ghost sourced = content@;
    proof {
        match atom.spec_source() {
            Some(s) => lemma_packed_bound(Seq::empty(), source_texts(s)),
            None => {},
        }
    }
    match atom.payload() {
        Some(payload) => {
            flatten(payload, &mut content);
        },
        None => {},
    }
    proof {
        match atom.spec_payload() {
            Some(p) => lemma_packed_bound(sourced, leaves(p)),
            None => {},
        }
    }
    if content.len() == 0 {
        None
    } else {
        Some(content)
    }
}

/// Whether `p` is a prefix of `c` that counts: eight to sixty-four bytes of its start.
pub open spec fn counts_prefix(c: Seq<u8>, p: Seq<u8>) -> bool {
    8 <= p.len() <= 64 && p.len() <= c.len() && p == c.take(p.len() as int)
}

/// The count of `p` in `m`, zero where it has none.
pub open spec fn counted(m: Map<Seq<u8>, u64>, p: Seq<u8>) -> int {
    if m.contains_key(p) {
        m[p] as int
    } else {
        0
    }
}

/// `m` with one more count for each prefix of `c` shorter than `n` bytes that counts.
pub open spec fn bumped(m: Map<Seq<u8>, u64>, c: Seq<u8>, n: int) -> Map<Seq<u8>, u64> {
    Map::new(
        |p: Seq<u8>| m.contains_key(p) || (counts_prefix(c, p) && p.len() < n),
        |p: Seq<u8>|
            (counted(m, p) + if counts_prefix(c, p) && p.len() < n {
                1int
            } else {
                0int
            }) as u64,
    )
}

/// Whether some entry holds the bytes `k`.
pub open spec fn holds_bytes(entries: Seq<(Vec<u8>, u64)>, k: Seq<u8>) -> bool {
    exists|i: int| 0 <= i < entries.len() && entries[i].0@ == k
}

/// An entry holding the bytes `k`, where one does.
pub open spec fn pick_bytes(entries: Seq<(Vec<u8>, u64)>, k: Seq<u8>) -> int {
    choose|i: int| 0 <= i < entries.len() && entries[i].0@ == k
}

/// The counts that entries with distinct keys describe.
pub open spec fn counts_of(entries: Seq<(Vec<u8>, u64)>) -> Map<Seq<u8>, u64> {
    Map::new(
        |k: Seq<u8>| holds_bytes(entries, k),
        |k: Seq<u8>| entries[pick_bytes(entries, k)].1,
    )
}

/// Entries whose keys are distinct.
pub open spec fn distinct_bytes(entries: Seq<(Vec<u8>, u64)>) -> bool {
    forall|i: int, j: int|
        0 <= i < j < entries.len() ==> #[trigger] entries[i].0@ != #[trigger] entries[j].0@
}

pub proof fn lemma_counts_at(entries: Seq<(Vec<u8>, u64)>, i: int)
    requires
        distinct_bytes(entries),
        0 <= i < entries.len(),
    ensures
        counts_of(entries).contains_key(entries[i].0@),
        counts_of(entries)[entries[i].0@] == entries[i].1,
{
    let k = entries[i].0@;
    assert(holds_bytes(entries, k));
    let j = pick_bytes(entries, k);
    if j < i {
        assert(entries[j].0@ != entries[i].0@);
    } else if i < j {
        assert(entries[i].0@ != entries[j].0@);
    }
}

/// The records of one group, and how many of them each content prefix starts.
#[derive(Debug)]
pub struct Prefix {
    atoms: u64,
    prefixes: Vec<(Vec<u8>, u64)>,
}

/// The view of a group's prefix counts.
pub struct PrefixView {
    pub atoms: u64,
    pub counts: Map<Seq<u8>, u64>,
}

impl Prefix {
    /// Distinct keys, and no prefix counted more often than records were seen.
    pub closed spec fn wf(&self) -> bool {
        &&& distinct_bytes(self.prefixes@)
        &&& forall|i: int|
            0 <= i < self.prefixes@.len() ==> #[trigger] self.prefixes@[i].1 <= self.atoms && 8
                <= self.prefixes@[i].0@.len() <= 64
    }

    /// The records seen and the count of each prefix.
    pub closed spec fn view(&self) -> PrefixView {
        PrefixView { atoms: self.atoms, counts: counts_of(self.prefixes@) }
    }

    /// A group that has seen no record.
    pub fn new() -> (r: Self)
        ensures
            r.wf(),
            r@.atoms == 0,
            r@.counts == Map::<Seq<u8>, u64>::empty(),
    {
        let r = Prefix { atoms: 0, prefixes: Vec::new() };
        assert(r@.counts =~= Map::<Seq<u8>, u64>::empty());
        r
    }

    /// Counts one more record starting with `key`.
    fn bump(&mut self, key: Vec<u8>)
        requires
            old(self).wf(),
            counted(old(self)@.counts, key@) < old(self).atoms,
            8 <= key@.len() <= 64,
        ensures
            final(self).wf(),
            final(self).atoms == old(self).atoms,
            final(self)@.counts == old(self)@.counts.insert(
                key@,
                (counted(old(self)@.counts, key@) + 1) as u64,
            ),
    {
        let ghost before = self.prefixes@;
        let ghost k = key@;
        let mut i: usize = 0;
        let mut found = false;
        while i < self.prefixes.len() && !found
            invariant
                self.prefixes@ == before,
                k == key@,
                i <= before.len(),
                found ==> i < before.len() && before[i as int].0@ == k,
                forall|j: int| 0 <= j < i ==> before[j].0@ != k,
            decreases before.len() - i, if found { 0int } else { 1int },
        {
            if bytes_equal(self.prefixes[i].0.as_slice(), key.as_slice()) {
                found = true;
            } else {
                i = i + 1;
            }
        }
        if found {
            proof {
                lemma_counts_at(before, i as int);
            }
            let count = self.prefixes[i].1;
            assert(before[i as int].0@ == k);
            self.prefixes.set(i, (key, count + 1));
            proof {
                let e = self.prefixes@;
                assert(forall|j: int| 0 <= j < e.len() ==> #[trigger] e[j].0@ == before[j].0@);
                assert(counts_of(e) =~= counts_of(before).insert(k, (count + 1) as u64)) by {
                    assert forall|q: Seq<u8>| #[trigger]
                        counts_of(e).contains_key(q) == counts_of(before).insert(
                            k,
                            (count + 1) as u64,
                        ).contains_key(q) by {
                        if counts_of(e).contains_key(q) {
                            let j = pick_bytes(e, q);
                            assert(before[j].0@ == q);
                        }
                        if counts_of(before).contains_key(q) {
                            let j = pick_bytes(before, q);
                            assert(e[j].0@ == q);
                        }
                        if q == k {
                            assert(e[i as int].0@ == q);
                        }
                    }
                    assert forall|q: Seq<u8>| #[trigger] counts_of(e).contains_key(q) implies counts_of(
                        e,
                    )[q] == counts_of(before).insert(k, (count + 1) as u64)[q] by {
                        let j = pick_bytes(e, q);
                        lemma_counts_at(e, j);
                        if q != k {
                            assert(j != i);
                            lemma_counts_at(before, j);
                        }
                    }
                }
            }
        } else {
            self.prefixes.push((key, 1));
            proof {
                let e = self.prefixes@;
                assert(!counts_of(before).contains_key(k)) by {
                    if holds_bytes(before, k) {
                        let j = pick_bytes(before, k);
                        assert(before[j].0@ == k);
                    }
                }
                assert(distinct_bytes(e)) by {
                    assert forall|a: int, b: int| 0 <= a < b < e.len() implies e[a].0@ != e[b].0@ by {
                        if b == before.len() {
                            assert(before[a].0@ != k);
                        } else {
                            assert(e[a] == before[a] && e[b] == before[b]);
                        }
                    }
                }
                assert(counts_of(e) =~= counts_of(before).insert(k, 1u64)) by {
                    assert forall|q: Seq<u8>| #[trigger]
                        counts_of(e).contains_key(q) == counts_of(before).insert(
                            k,
                            1u64,
                        ).contains_key(q) by {
                        if counts_of(e).contains_key(q) {
                            let j = pick_bytes(e, q);
                            if j < before.len() {
                                assert(before[j].0@ == q);
                            }
                        }
                        if counts_of(before).contains_key(q) {
                            let j = pick_bytes(before, q);
                            assert(e[j].0@ == q);
                        }
                        if q == k {
                            assert(e[before.len() as int].0@ == q);
                        }
                    }
                    assert forall|q: Seq<u8>| #[trigger] counts_of(e).contains_key(q) implies counts_of(
                        e,
                    )[q] == counts_of(before).insert(k, 1u64)[q] by {
                        let j = pick_bytes(e, q);
                        lemma_counts_at(e, j);
                        if q != k {
                            assert(j != before.len());
                            assert(e[j] == before[j]);
                            lemma_counts_at(before, j);
                        }
                    }
                }
            }
        }
    }
}

/// Whether `(count, len)` is the greatest (count, length) pair among the prefixes of `m`,
/// compared by count and then by length, and some prefix has it.
pub open spec fn dominant(m: Map<Seq<u8>, u64>, count: u64, len: int) -> bool {
    &&& exists|p: Seq<u8>| #[trigger] m.contains_key(p) && m[p] == count && p.len() == len
    &&& forall|p: Seq<u8>|
        #[trigger] m.contains_key(p) ==> m[p] < count || (m[p] == count && p.len() <= len)
}

/// The first `n` bytes of `bytes`.
fn head(bytes: &Vec<u8>, n: usize) -> (r: Vec<u8>)
    requires
        n <= bytes@.len(),
    ensures
        r@ == bytes@.take(n as int),
{
    let mut out: Vec<u8> = Vec::new();
    let mut i: usize = 0;
    while i < n
        invariant
            n <= bytes@.len(),
            i <= n,
            out@ == bytes@.take(i as int),
        decreases n - i,
    {
        out.push(bytes[i]);
        i = i + 1;
        assert(out@ =~= bytes@.take(i as int));
    }
    out
}

pub proof fn lemma_bumped_step(m: Map<Seq<u8>, u64>, c: Seq<u8>, n: int)
    requires
        8 <= n <= c.len(),
        n <= 64,
        counted(m, c.take(n)) < u64::MAX,
    ensures
        bumped(m, c, n + 1) == bumped(m, c, n).insert(
            c.take(n),
            (counted(bumped(m, c, n), c.take(n)) + 1) as u64,
        ),
        counted(bumped(m, c, n), c.take(n)) == counted(m, c.take(n)),
{
    let k = c.take(n);
    assert(counts_prefix(c, k));
    assert(bumped(m, c, n + 1) =~= bumped(m, c, n).insert(
        k,
        (counted(bumped(m, c, n), k) + 1) as u64,
    )) by {
        assert forall|p: Seq<u8>| #[trigger] bumped(m, c, n + 1).contains_key(p) && p != k implies bumped(
            m,
            c,
            n,
        ).contains_key(p) by {
            if p != k && counts_prefix(c, p) && p.len() == n {
                assert(p == c.take(n));
            }
        }
        assert forall|p: Seq<u8>| p != k && #[trigger] bumped(m, c, n + 1).contains_key(p) implies bumped(
            m,
            c,
            n + 1,
        )[p] == bumped(m, c, n)[p] by {
            if counts_prefix(c, p) && p.len() == n {
                assert(p == c.take(n));
            }
        }
    }
}

impl Prefix {
    pub proof fn lemma_counted_bound(&self, p: Seq<u8>)
        requires
            self.wf(),
        ensures
            0 <= counted(self@.counts, p) <= self@.atoms,
    {
        if self@.counts.contains_key(p) {
            let j = pick_bytes(self.prefixes@, p);
            assert(0 <= j < self.prefixes@.len());
            assert(self.prefixes@[j].1 <= self.atoms);
        }
    }

    /// Takes one record of the group: one more record, and one more count for each prefix of
    /// its content from eight bytes on. Refuses when the record count would pass `u64::MAX`.
    pub fn observe(&mut self, atom: &Atom) -> (r: Result<(), String>)
        requires
            old(self).wf(),
        ensures
            final(self).wf(),
            old(self)@.atoms == u64::MAX ==> (r matches Err(m) && m@ == "group Atom count overflowed"@),
            old(self)@.atoms < u64::MAX ==> {
                &&& r is Ok
                &&& final(self)@.atoms == old(self)@.atoms + 1
                &&& final(self)@.counts == bumped(old(self)@.counts, content_of(*atom), 65)
            },
    {
        if self.atoms == u64::MAX {
            return Err("group Atom count overflowed".to_owned());
        }
        let ghost start = self@.counts;
        self.atoms = self.atoms + 1;
        let c = match content(atom) {
            Some(c) => c,
            None => {
                assert(bumped(start, content_of(*atom), 65) =~= start);
                return Ok(());
            },
        };
        let ceiling = c.len();
        let mut length: usize = MINIMUM;
        assert(bumped(start, c@, 8) =~= start);
        while length <= ceiling
            invariant
                self.wf(),
                self@.atoms == old(self)@.atoms + 1,
                start == old(self)@.counts,
                old(self).wf(),
                ceiling == c@.len(),
                ceiling <= 64,
                8 <= length,
                ceiling >= 8 ==> length <= ceiling + 1,
                ceiling < 8 ==> length == 8,
                self@.counts == bumped(start, c@, length as int),
            decreases ceiling + 1 - length,
        {
            let key = head(&c, length);
            proof {
                old(self).lemma_counted_bound(key@);
                lemma_bumped_step(start, c@, length as int);
            }
            self.bump(key);
            length = length + 1;
        }
        assert(bumped(start, c@, length as int) =~= bumped(start, c@, 65));
        Ok(())
    }

    /// The dominant prefix of the group, once it has at least five records and some prefix:
    /// how often it repeats, as a percentage of the records and as a count, and its length.
    pub fn measurement(&self) -> (r: Option<Measurement>)
        requires
            self.wf(),
        ensures
            r is None <==> self@.atoms < FLOOR || self@.counts.dom() == Set::<Seq<u8>>::empty(),
            r matches Some(m) ==> (m matches Measurement::Prefix { value, atoms, repeated, bytes }
                && atoms == self@.atoms && dominant(self@.counts, repeated, bytes as int) && value
                == (repeated * 100) / (atoms as int) && 8 <= bytes <= 64 && repeated <= atoms
                && value <= 100),
    {
        let ghost view = self@;
        let atoms = self.atoms;
        let prefixes = &self.prefixes;
        if atoms < FLOOR {
            return None;
        }
        if prefixes.len() == 0 {
            assert(view.counts.dom() =~= Set::<Seq<u8>>::empty());
            return None;
        }
        let mut best: u64 = prefixes[0].1;
        let mut bytes: usize = prefixes[0].0.len();
        let mut at: usize = 0;
        let mut i: usize = 1;
        while i < prefixes.len()
            invariant
                1 <= i <= prefixes@.len(),
                at < i,
                best == prefixes@[at as int].1,
                bytes == prefixes@[at as int].0@.len(),
                forall|j: int|
                    0 <= j < i ==> #[trigger] prefixes@[j].1 < best || (prefixes@[j].1 == best
                        && prefixes@[j].0@.len() <= bytes),
            decreases prefixes@.len() - i,
        {
            let count = prefixes[i].1;
            let len = prefixes[i].0.len();
            if count > best || (count == best && len > bytes) {
                best = count;
                bytes = len;
                at = i;
            }
            i = i + 1;
        }
        proof {
            lemma_counts_at(prefixes@, at as int);
            assert(view.counts.contains_key(prefixes@[at as int].0@));
            assert forall|p: Seq<u8>| #[trigger] view.counts.contains_key(p) implies view.counts[p]
                < best || (view.counts[p] == best && p.len() <= bytes) by {
                let j = pick_bytes(prefixes@, p);
                lemma_counts_at(prefixes@, j);
            }
            assert(best <= atoms);
            assert((best * 100) / (atoms as int) <= 100) by (nonlinear_arith)
                requires
                    best <= atoms,
                    atoms >= 5,
            ;
        }
        let value = ((best as u128) * 100 / (atoms as u128)) as u64;
        Some(Measurement::Prefix { value, atoms, repeated: best, bytes })
    }
}

/// A mapping of the catalog, with the role whose key groups its measures.
#[derive(Debug)]
pub enum Mapping {
    /// Encoded record bytes per group.
    Bytes { group: Role },
    /// Dominant content prefix per group.
    Prefix { group: Role },
    /// Held time per group, from the span derivation.
    Held { group: Role },
}

impl Mapping {
    /// The role whose key groups the measures.
    pub open spec fn group(&self) -> Role {
        match *self {
            Mapping::Bytes { group } => group,
            Mapping::Prefix { group } => group,
            Mapping::Held { group } => group,
        }
    }
}

/// The measure of one group.
#[derive(Debug)]
pub struct Observation {
    pub group: Group,
    pub measurement: Measurement,
}

/// What a mapping yields over a whole stream: a measure per group in key order, and the spans
/// a held-time mapping dropped.
#[derive(Debug)]
pub struct Reading {
    pub observations: Vec<Observation>,
    pub refused: u128,
}

/// Held time summed per group key; spans whose entering record bound no key stand in no group.
pub open spec fn group_tally(held: Seq<HeldView>) -> Map<Seq<char>, MeasureView>
    decreases held.len(),
{
    if held.len() == 0 {
        Map::empty()
    } else {
        let m = group_tally(held.drop_last());
        let h = held.last();
        match h.group {
            Some(g) => {
                let prev = if m.contains_key(g) {
                    m[g]
                } else {
                    MeasureView { spans: 0, inclusive: 0, held: 0 }
                };
                m.insert(g, add_span(prev, h))
            },
            None => m,
        }
    }
}

/// What a mapping has gathered so far.
pub enum StateView {
    Bytes(Map<Seq<char>, u64>),
    Prefix(Map<Seq<char>, PrefixView>),
    Held(Ledger),
}

/// Whether a group's prefix counts yield a measure: five records or more, and some prefix.
pub open spec fn measured(pv: PrefixView) -> bool {
    pv.atoms >= FLOOR && pv.counts.dom() != Set::<Seq<u8>>::empty()
}

/// Whether `m` is the dominant-prefix measure of a group's counts.
pub open spec fn prefix_fits(pv: PrefixView, m: Measurement) -> bool {
    m matches Measurement::Prefix { value, atoms, repeated, bytes } && atoms == pv.atoms && dominant(
        pv.counts,
        repeated,
        bytes as int,
    ) && value == (repeated * 100) / (atoms as int)
}

/// The held-time measures of a finished derivation, per group.
pub open spec fn held_tally(l: Ledger) -> Map<Seq<char>, MeasureView> {
    group_tally(held_over(l.spec_trace_order()))
}

/// The groups a mapping reports.
pub open spec fn listed(v: StateView) -> Set<Seq<char>> {
    match v {
        StateView::Bytes(m) => m.dom(),
        StateView::Prefix(m) => m.dom().filter(|k: Seq<char>| measured(m[k])),
        StateView::Held(l) => held_tally(l).dom(),
    }
}

/// Whether `m` is the measure a mapping reports for group `key`.
pub open spec fn fits(v: StateView, key: Seq<char>, m: Measurement) -> bool {
    match v {
        StateView::Bytes(map) => map.contains_key(key) && m == Measurement::Bytes { value: map[key] },
        StateView::Prefix(map) => map.contains_key(key) && prefix_fits(map[key], m),
        StateView::Held(l) => {
            let t = held_tally(l);
            t.contains_key(key) && m == Measurement::Held {
                value: t[key].held as u128,
                inclusive: t[key].inclusive as u128,
                spans: t[key].spans as u64,
            }
        },
    }
}

/// The spans a mapping dropped.
pub open spec fn dropped(v: StateView) -> int {
    match v {
        StateView::Held(l) => refused_total(tangles_over(l.spec_trace_order())),
        _ => 0,
    }
}

/// What a mapping holds before any record: nothing, and for held time an empty derivation that
/// groups by the mapping's role.
pub open spec fn fresh(mapping: Mapping, v: StateView) -> bool {
    match mapping {
        Mapping::Bytes { .. } => v == StateView::Bytes(Map::empty()),
        Mapping::Prefix { .. } => v == StateView::Prefix(Map::empty()),
        Mapping::Held { group } => v matches StateView::Held(l) && l.spec_group() == Some(group@)
            && l.spec_open() == Map::<Seq<char>, crate::derive::FrameView>::empty()
            && l.spec_traces() == Map::<Seq<char>, Seq<crate::derive::Interval>>::empty()
            && l.spec_matched() == 0,
    }
}

enum Store {
    Bytes(Table<u64>),
    Prefix(Table<Prefix>),
    Held(Ledger),
}

/// A mapping while the records stream in.
pub struct State {
    role: Role,
    store: Store,
}

impl State {
    #[verifier::type_invariant]
    spec fn valid(&self) -> bool {
        match self.store {
            Store::Bytes(t) => t.wf(),
            Store::Prefix(t) => t.wf() && forall|k: Seq<char>| #[trigger] t@.contains_key(k) ==> t@[k].wf(),
            Store::Held(l) => l.spec_group() == Some(self.role@),
        }
    }

    /// The role whose key groups the measures.
    pub closed spec fn spec_role(&self) -> Seq<char> {
        self.role@
    }

    /// What the mapping has gathered.
    pub closed spec fn spec_view(&self) -> StateView {
        match self.store {
            Store::Bytes(t) => StateView::Bytes(t@),
            Store::Prefix(t) => StateView::Prefix(
                Map::new(|k: Seq<char>| t@.contains_key(k), |k: Seq<char>| t@[k]@),
            ),
            Store::Held(l) => StateView::Held(l),
        }
    }

    /// A mapping that has seen no record.
    pub fn new(mapping: &Mapping) -> (r: Self)
        ensures
            r.spec_role() == mapping.group()@,
            fresh(*mapping, r.spec_view()),
    {
        match mapping {
            Mapping::Bytes { group } => State { role: group.clone(), store: Store::Bytes(Table::new()) },
            Mapping::Prefix { group } => {
                let r = State { role: group.clone(), store: Store::Prefix(Table::new()) };
                assert(r.spec_view() == StateView::Prefix(Map::empty())) by {
                    assert(Map::new(
                        |k: Seq<char>| Map::<Seq<char>, Prefix>::empty().contains_key(k),
                        |k: Seq<char>| Map::<Seq<char>, Prefix>::empty()[k]@,
                    ) =~= Map::<Seq<char>, PrefixView>::empty());
                }
                r
            },
            Mapping::Held { group } => {
                let role = group.clone();
                let ledger = Ledger::grouped(Some(group.clone()));
                State { role, store: Store::Held(ledger) }
            },
        }
    }
}

/// The counts of group `k`, none where the group has not been seen.
pub open spec fn prefix_of(m: Map<Seq<char>, PrefixView>, k: Seq<char>) -> PrefixView {
    if m.contains_key(k) {
        m[k]
    } else {
        PrefixView { atoms: 0, counts: Map::empty() }
    }
}

/// The counts of a group after one more record.
pub open spec fn prefix_after(pv: PrefixView, atom: Atom) -> PrefixView {
    PrefixView { atoms: (pv.atoms + 1) as u64, counts: bumped(pv.counts, content_of(atom), 65) }
}

/// The byte total of group `k`, zero where the group has not been seen.
pub open spec fn total_of(m: Map<Seq<char>, u64>, k: Seq<char>) -> int {
    if m.contains_key(k) {
        m[k] as int
    } else {
        0
    }
}

/// What one record of `encoded` bytes does to a mapping grouped by `role`: a record that does
/// not bind the role leaves byte and prefix mappings as they were; otherwise the bytes are added
/// to its group's total, refused past `u64::MAX`, or its group's prefix counts take it. The
/// held-time mapping hands every record to its span derivation.
pub open spec fn steps(
    before: StateView,
    role: Seq<char>,
    atom: Atom,
    encoded: u64,
    r: Result<(), String>,
    after: StateView,
) -> bool {
    let ctx = atom.spec_context();
    match before {
        StateView::Bytes(m) => if !ctx.contains_key(role) {
            r is Ok && after == before
        } else {
            let k = ctx[role];
            if total_of(m, k) + encoded > u64::MAX {
                r matches Err(e) && e@ == "representation byte count overflowed"@
            } else {
                r is Ok && after == StateView::Bytes(m.insert(k, (total_of(m, k) + encoded) as u64))
            }
        },
        StateView::Prefix(m) => if !ctx.contains_key(role) {
            r is Ok && after == before
        } else {
            let k = ctx[role];
            if prefix_of(m, k).atoms == u64::MAX {
                r matches Err(e) && e@ == "group Atom count overflowed"@
            } else {
                r is Ok && after == StateView::Prefix(m.insert(k, prefix_after(prefix_of(m, k), atom)))
            }
        },
        StateView::Held(l) => after matches StateView::Held(l2) && observes(l, atom, r, l2),
    }
}

/// The encoded bytes of the records among `records` that bind `key` to `role`, summed.
pub open spec fn bytes_for(records: Seq<(Atom, u64)>, role: Seq<char>, key: Seq<char>) -> int
    decreases records.len(),
{
    if records.len() == 0 {
        0
    } else {
        let (atom, encoded) = records.last();
        bytes_for(records.drop_last(), role, key) + if atom.spec_context().contains_key(role)
            && atom.spec_context()[role] == key {
            encoded as int
        } else {
            0int
        }
    }
}

/// The byte mapping sums encoded record bytes per group: after every record was taken without
/// refusal, each group's total is the sum of the encoded sizes of the records binding its key,
/// and a group no record binds has no total.
pub proof fn law_bytes(views: Seq<StateView>, role: Seq<char>, records: Seq<(Atom, u64)>)
    requires
        views.len() == records.len() + 1,
        views[0] == StateView::Bytes(Map::empty()),
        forall|i: int|
            0 <= i < records.len() ==> steps(
                #[trigger] views[i],
                role,
                records[i].0,
                records[i].1,
                Ok(()),
                views[i + 1],
            ),
    ensures
        views[records.len() as int] matches StateView::Bytes(m) && forall|k: Seq<char>|
            #[trigger] total_of(m, k) == bytes_for(records, role, k),
    decreases records.len(),
{
    if records.len() == 0 {
        assert forall|k: Seq<char>| #[trigger] total_of(Map::<Seq<char>, u64>::empty(), k) == bytes_for(records, role, k) by {}
    } else {
        let n = records.len() - 1;
        let front = views.subrange(0, n + 1);
        let head = records.drop_last();
        assert forall|i: int| 0 <= i < head.len() implies steps(
            #[trigger] front[i],
            role,
            head[i].0,
            head[i].1,
            Ok(()),
            front[i + 1],
        ) by {
            assert(front[i] == views[i] && front[i + 1] == views[i + 1] && head[i] == records[i]);
        }
        law_bytes(front, role, head);
        assert(front[n] == views[n]);
        assert(steps(views[n], role, records[n].0, records[n].1, Ok(()), views[n + 1]));
        assert(records.last() == records[n]);
        let m0 = views[n]->Bytes_0;
        assert forall|k: Seq<char>| #[trigger] total_of(views[n + 1]->Bytes_0, k) == bytes_for(records, role, k) by {
            assert(total_of(m0, k) == bytes_for(head, role, k));
        }
    }
}

impl State {
    /// Takes one record of `encoded` bytes into the mapping.
    pub fn observe(&mut self, atom: &Atom, encoded: u64) -> (r: Result<(), String>)
        ensures
            final(self).spec_role() == old(self).spec_role(),
            steps(old(self).spec_view(), old(self).spec_role(), *atom, encoded, r, final(self).spec_view()),
    {
        proof {
            use_type_invariant(&*self);
        }
        let ghost before = self.spec_view();
        let mut store = Store::Bytes(Table::new());
        std::mem::swap(&mut store, &mut self.store);
        match store {
            Store::Bytes(mut groups) => {
                let key = match atom.context().get(self.role.text()) {
                    Some(k) => k.clone(),
                    None => {
                        self.store = Store::Bytes(groups);
                        return Ok(());
                    },
                };
                let current = match groups.get(key.as_str()) {
                    Some(v) => *v,
                    None => 0,
                };
                if current > u64::MAX - encoded {
                    self.store = Store::Bytes(groups);
                    return Err("representation byte count overflowed".to_owned());
                }
                groups.put(key, current + encoded);
                self.store = Store::Bytes(groups);
                Ok(())
            },
            Store::Prefix(mut groups) => {
                let ghost m = match before {
                    StateView::Prefix(m) => m,
                    _ => Map::empty(),
                };
                let key = match atom.context().get(self.role.text()) {
                    Some(k) => k.clone(),
                    None => {
                        self.store = Store::Prefix(groups);
                        return Ok(());
                    },
                };
                let ghost k = key@;
                let ghost held = groups@;
                let mut prefix = match groups.take(key.as_str()) {
                    Some(p) => p,
                    None => Prefix::new(),
                };
                assert(prefix@ == prefix_of(m, k));
                let result = prefix.observe(atom);
                let ghost after = prefix@;
                groups.put(key, prefix);
                proof {
                    assert forall|q: Seq<char>| #[trigger] groups@.contains_key(q) implies groups@[q].wf() by {
                        if q != k {
                            assert(held.contains_key(q));
                        }
                    }
                }
                self.store = Store::Prefix(groups);
                proof {
                    if result is Ok {
                        assert(self.spec_view() == StateView::Prefix(m.insert(k, after))) by {
                            assert(Map::new(
                                |q: Seq<char>| groups@.contains_key(q),
                                |q: Seq<char>| groups@[q]@,
                            ) =~= m.insert(k, after));
                        }
                    }
                }
                result
            },
            Store::Held(mut ledger) => {
                let result = ledger.observe(atom);
                self.store = Store::Held(ledger);
                result
            },
        }
    }
}

/// The keys of a sequence of observations.
pub open spec fn keys_of_observations(s: Seq<Observation>) -> Seq<Seq<char>> {
    s.map_values(|o: Observation| o.group.key@)
}

/// The byte totals of a table, one observation per group in key order.
fn bytes_reading(role: &Role, groups: &Table<u64>) -> (r: Vec<Observation>)
    requires
        groups.wf(),
    ensures
        forall|i: int|
            0 <= i < r@.len() ==> (#[trigger] r@[i]).group.role@ == role@ && fits(
                StateView::Bytes(groups@),
                r@[i].group.key@,
                r@[i].measurement,
            ),
        in_key_order(keys_of_observations(r@), groups@.dom()),
{
    let ghost e = groups.entries();
    let mut out: Vec<Observation> = Vec::new();
    let mut i: usize = 0;
    while i < groups.len()
        invariant
            groups.wf(),
            e == groups.entries(),
            i <= e.len(),
            out@.len() == i,
            forall|j: int|
                0 <= j < i ==> (#[trigger] out@[j]).group.role@ == role@ && out@[j].group.key@
                    == e[j].0@ && fits(StateView::Bytes(groups@), out@[j].group.key@, out@[j].measurement),
        decreases e.len() - i,
    {
        proof {
            lemma_map_at(e, i as int);
        }
        let o = Observation {
            group: Group::new(role, groups.key_at(i).clone()),
            measurement: Measurement::Bytes { value: *groups.value_at(i) },
        };
        out.push(o);
        i = i + 1;
    }
    proof {
        let keys = keys_of_observations(out@);
        assert forall|a: int, b: int| 0 <= a < b < keys.len() implies text_precedes(
            #[trigger] keys[a],
            #[trigger] keys[b],
        ) by {
            assert(keys[a] == e[a].0@ && keys[b] == e[b].0@);
        }
        assert forall|k: Seq<char>| #[trigger] groups@.dom().contains(k) implies exists|j: int|
            0 <= j < keys.len() && keys[j] == k by {
            let j = crate::table::pick(e, k);
            assert(keys[j] == k);
        }
    }
    out
}

/// The dominant prefixes of a table of groups, one observation per measured group in key order.
fn prefix_reading(role: &Role, groups: &Table<Prefix>) -> (r: Vec<Observation>)
    requires
        groups.wf(),
        forall|k: Seq<char>| #[trigger] groups@.contains_key(k) ==> groups@[k].wf(),
    ensures
        forall|i: int|
            0 <= i < r@.len() ==> (#[trigger] r@[i]).group.role@ == role@ && fits(
                StateView::Prefix(Map::new(|k: Seq<char>| groups@.contains_key(k), |k: Seq<char>| groups@[k]@)),
                r@[i].group.key@,
                r@[i].measurement,
            ),
        in_key_order(
            keys_of_observations(r@),
            listed(StateView::Prefix(Map::new(|k: Seq<char>| groups@.contains_key(k), |k: Seq<char>| groups@[k]@))),
        ),
{
    let ghost e = groups.entries();
    let ghost m = Map::new(|k: Seq<char>| groups@.contains_key(k), |k: Seq<char>| groups@[k]@);
    let ghost mut picked: Seq<int> = Seq::empty();
    let mut out: Vec<Observation> = Vec::new();
    let mut i: usize = 0;
    while i < groups.len()
        invariant
            groups.wf(),
            forall|k: Seq<char>| #[trigger] groups@.contains_key(k) ==> groups@[k].wf(),
            e == groups.entries(),
            m == Map::new(|k: Seq<char>| groups@.contains_key(k), |k: Seq<char>| groups@[k]@),
            i <= e.len(),
            out@.len() == picked.len(),
            forall|j: int| 0 <= j < picked.len() ==> 0 <= #[trigger] picked[j] < i,
            forall|a: int, b: int| 0 <= a < b < picked.len() ==> #[trigger] picked[a] < #[trigger] picked[b],
            forall|j: int|
                0 <= j < out@.len() ==> (#[trigger] out@[j]).group.role@ == role@ && out@[j].group.key@
                    == e[picked[j]].0@ && measured(m[out@[j].group.key@]) && fits(
                    StateView::Prefix(m),
                    out@[j].group.key@,
                    out@[j].measurement,
                ),
            forall|t: int|
                0 <= t < i && #[trigger] measured(m[e[t].0@]) ==> exists|j: int|
                    0 <= j < picked.len() && picked[j] == t,
        decreases e.len() - i,
    {
        proof {
            lemma_map_at(e, i as int);
        }
        let prefix = groups.value_at(i);
        assert(m[e[i as int].0@] == prefix@);
        let ghost earlier = picked;
        match prefix.measurement() {
            Some(measurement) => {
                let o = Observation { group: Group::new(role, groups.key_at(i).clone()), measurement };
                out.push(o);
                proof {
                    picked = picked.push(i as int);
                    assert(picked[picked.len() - 1] == i);
                }
            },
            None => {},
        }
        proof {
            assert forall|t: int| 0 <= t < i + 1 && #[trigger] measured(m[e[t].0@]) implies exists|j: int|
                0 <= j < picked.len() && picked[j] == t by {
                if t == i {
                    assert(picked[picked.len() - 1] == t);
                } else {
                    let j = choose|j: int| 0 <= j < earlier.len() && earlier[j] == t;
                    assert(picked[j] == t);
                }
            }
        }
        i = i + 1;
    }
    proof {
        let keys = keys_of_observations(out@);
        assert forall|a: int, b: int| 0 <= a < b < keys.len() implies text_precedes(
            #[trigger] keys[a],
            #[trigger] keys[b],
        ) by {
            assert(picked[a] < picked[b]);
        }
        assert forall|j: int| 0 <= j < keys.len() implies listed(StateView::Prefix(m)).contains(
            #[trigger] keys[j],
        ) by {
            lemma_map_at(e, picked[j]);
        }
        assert forall|k: Seq<char>| #[trigger] listed(StateView::Prefix(m)).contains(k) implies exists|j: int|
            0 <= j < keys.len() && keys[j] == k by {
            let t = crate::table::pick(e, k);
            assert(measured(m[e[t].0@]));
            let j = choose|j: int| 0 <= j < picked.len() && picked[j] == t;
            assert(keys[j] == k);
        }
    }
    out
}

/// Held time summed per group key over the surviving spans.
fn tally_groups(held: &Vec<Held>) -> (r: Table<Measure>)
    requires
        forall|i: int|
            0 <= i < held@.len() ==> #[trigger] held@[i].held <= held@[i].inclusive <= u64::MAX,
    ensures
        r.wf(),
        Map::new(|k: Seq<char>| r@.contains_key(k), |k: Seq<char>| r@[k]@) == group_tally(
            held@.map_values(|h: Held| h@),
        ),
{
    let ghost views = held@.map_values(|h: Held| h@);
    let mut groups: Table<Measure> = Table::new();
    let mut i: usize = 0;
    while i < held.len()
        invariant
            groups.wf(),
            i <= held@.len(),
            views == held@.map_values(|h: Held| h@),
            forall|j: int|
                0 <= j < held@.len() ==> #[trigger] held@[j].held <= held@[j].inclusive <= u64::MAX,
            forall|k: Seq<char>|
                #![trigger groups@.contains_key(k)]
                groups@.contains_key(k) ==> groups@[k].spans <= i && groups@[k].held
                    <= groups@[k].inclusive && groups@[k].inclusive <= groups@[k].spans
                    * 0xffff_ffff_ffff_ffffu128,
            Map::new(|k: Seq<char>| groups@.contains_key(k), |k: Seq<char>| groups@[k]@)
                == group_tally(views.subrange(0, i as int)),
        decreases held@.len() - i,
    {
        let h = &held[i];
        proof {
            let t = views.subrange(0, i + 1);
            assert(t.drop_last() =~= views.subrange(0, i as int));
            assert(t.last() == held@[i as int]@);
        }
        match &h.group {
            Some(g) => {
                let (spans, inclusive, total) = match groups.get(g.as_str()) {
                    Some(m) => (m.spans, m.inclusive, m.held),
                    None => (0, 0, 0),
                };
                proof {
                    assert(spans * 0xffff_ffff_ffff_ffffu128 + h.inclusive <= (spans + 1)
                        * 0xffff_ffff_ffff_ffffu128) by (nonlinear_arith)
                        requires
                            h.inclusive <= 0xffff_ffff_ffff_ffffu128,
                    ;
                    assert((spans + 1) * 0xffff_ffff_ffff_ffffu128 <= 0xffff_ffff_ffff_ffffu128
                        * 0xffff_ffff_ffff_ffffu128) by (nonlinear_arith)
                        requires
                            spans + 1 <= 0xffff_ffff_ffff_ffffu128,
                    ;
                }
                let measure = Measure {
                    spans: spans + 1,
                    inclusive: inclusive + h.inclusive,
                    held: total + h.held,
                };
                groups.put(g.clone(), measure);
                proof {
                    let t = views.subrange(0, i + 1);
                    assert(Map::new(
                        |k: Seq<char>| groups@.contains_key(k),
                        |k: Seq<char>| groups@[k]@,
                    ) =~= group_tally(t));
                }
            },
            None => {},
        }
        i = i + 1;
    }
    proof {
        assert(views.subrange(0, held@.len() as int) =~= views);
    }
    groups
}

/// The held-time measures of a derivation, one observation per group in key order, and the
/// spans its crossing windows dropped.
fn held_reading(role: &Role, ledger: Ledger) -> (r: (Vec<Observation>, u128))
    ensures
        forall|i: int|
            0 <= i < r.0@.len() ==> (#[trigger] r.0@[i]).group.role@ == role@ && fits(
                StateView::Held(ledger),
                r.0@[i].group.key@,
                r.0@[i].measurement,
            ),
        in_key_order(keys_of_observations(r.0@), listed(StateView::Held(ledger))),
        r.1 == dropped(StateView::Held(ledger)),
{
    let ghost whole = ledger;
    let derived = ledger.finish();
    let groups = tally_groups(&derived.held);
    let refused = total_refused(&derived.tangles);
    let ghost t = held_tally(whole);
    let ghost e = groups.entries();
    let mut out: Vec<Observation> = Vec::new();
    let mut i: usize = 0;
    while i < groups.len()
        invariant
            groups.wf(),
            e == groups.entries(),
            t == Map::new(|k: Seq<char>| groups@.contains_key(k), |k: Seq<char>| groups@[k]@),
            t == held_tally(whole),
            i <= e.len(),
            out@.len() == i,
            forall|j: int|
                0 <= j < i ==> (#[trigger] out@[j]).group.role@ == role@ && out@[j].group.key@
                    == e[j].0@ && fits(StateView::Held(whole), out@[j].group.key@, out@[j].measurement),
        decreases e.len() - i,
    {
        proof {
            lemma_map_at(e, i as int);
        }
        let m = groups.value_at(i);
        let o = Observation {
            group: Group::new(role, groups.key_at(i).clone()),
            measurement: Measurement::Held { value: m.held, inclusive: m.inclusive, spans: m.spans },
        };
        out.push(o);
        i = i + 1;
    }
    proof {
        let keys = keys_of_observations(out@);
        assert forall|a: int, b: int| 0 <= a < b < keys.len() implies text_precedes(
            #[trigger] keys[a],
            #[trigger] keys[b],
        ) by {
            assert(keys[a] == e[a].0@ && keys[b] == e[b].0@);
        }
        assert forall|j: int| 0 <= j < keys.len() implies listed(StateView::Held(whole)).contains(
            #[trigger] keys[j],
        ) by {
            lemma_map_at(e, j);
        }
        assert forall|k: Seq<char>| #[trigger] listed(StateView::Held(whole)).contains(k) implies exists|j: int|
            0 <= j < keys.len() && keys[j] == k by {
            let j = crate::table::pick(e, k);
            assert(keys[j] == k);
        }
    }
    (out, refused)
}

impl State {
    /// Ends the mapping: the measure of each reported group in key order, and the spans it
    /// dropped.
    pub fn finish(self) -> (r: Reading)
        ensures
            forall|i: int|
                0 <= i < r.observations@.len() ==> (#[trigger] r.observations@[i]).group.role@
                    == self.spec_role() && fits(
                    self.spec_view(),
                    r.observations@[i].group.key@,
                    r.observations@[i].measurement,
                ),
            in_key_order(keys_of_observations(r.observations@), listed(self.spec_view())),
            r.refused == dropped(self.spec_view()),
    {
        proof {
            use_type_invariant(&self);
        }
        let State { role, store } = self;
        match store {
            Store::Bytes(groups) => Reading { observations: bytes_reading(&role, &groups), refused: 0 },
            Store::Prefix(groups) => Reading { observations: prefix_reading(&role, &groups), refused: 0 },
            Store::Held(ledger) => {
                let (observations, refused) = held_reading(&role, ledger);
                Reading { observations, refused }
            },
        }
    }
}

} // verus!
