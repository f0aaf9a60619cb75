//! The control-plane record as the engine sees it: a string map, and
//! the single idempotent "replace" patch the terminal state applies to
//! its result field. Replacing a field with the same value twice leaves
//! the record exactly as one application does.

use vstd::prelude::*;
use crate::model::ConfigData;
use crate::model::ConfigEntry;
use crate::model::EntryView;
use crate::model::entries_view;
use crate::model::spec_lookup;
use crate::model::bytes_eq;
use crate::codec::copy_bytes;

verus! {

/// The patch path of the record's result field.
pub open spec fn s_result_path() -> Seq<u8> {
    seq![47u8, 100u8, 97u8, 116u8, 97u8, 47u8, 114u8, 101u8, 115u8, 117u8, 108u8, 116u8, 46u8, 106u8, 115u8, 111u8, 110u8]
}

/// The bytes of `/data/result.json`, as a vector.
pub fn lit_result_path() -> (v: Vec<u8>)
    ensures
        v@ == s_result_path(),
{
    let mut v: Vec<u8> = Vec::new();
    v.push(47);
    v.push(100);
    v.push(97);
    v.push(116);
    v.push(97);
    v.push(47);
    v.push(114);
    v.push(101);
    v.push(115);
    v.push(117);
    v.push(108);
    v.push(116);
    v.push(46);
    v.push(106);
    v.push(115);
    v.push(111);
    v.push(110);
    proof {
        assert(v@ =~= s_result_path());
    }
    v
}

/// The data key the result patch targets.
pub open spec fn s_result_key() -> Seq<u8> {
    seq![114u8, 101u8, 115u8, 117u8, 108u8, 116u8, 46u8, 106u8, 115u8, 111u8, 110u8]
}

/// The bytes of `result.json`, as a vector.
pub fn lit_result_key() -> (v: Vec<u8>)
    ensures
        v@ == s_result_key(),
{
    let mut v: Vec<u8> = Vec::new();
    v.push(114);
    v.push(101);
    v.push(115);
    v.push(117);
    v.push(108);
    v.push(116);
    v.push(46);
    v.push(106);
    v.push(115);
    v.push(111);
    v.push(110);
    proof {
        assert(v@ =~= s_result_key());
    }
    v
}

/// A single JSON-patch "replace" operation: the record field at `path`
/// is set to `value`, whether or not it held anything before.
pub struct PatchOp {
    pub path: Vec<u8>,
    pub value: Vec<u8>,
}

/// The patch the terminal state applies: replace the record's result
/// field with the serialized result.
pub fn result_patch(serialized: Vec<u8>) -> (p: PatchOp)
    ensures
        p.path@ == s_result_path(),
        p.value@ == serialized@,
{
    PatchOp { path: lit_result_path(), value: serialized }
}

/// A record's data after a replace of `key` with `value`: the first
/// entry carrying `key` now carries `value`; absent the key, the entry
/// is appended. Every other entry is untouched.
pub open spec fn spec_apply(es: Seq<EntryView>, key: Seq<u8>, value: Seq<u8>) -> Seq<EntryView>
    decreases es.len(),
{
    if es.len() == 0 {
        seq![EntryView { key: key, value: value }]
    } else if es[0].key == key {
        seq![EntryView { key: key, value: value }] + es.drop_first()
    } else {
        seq![es[0]] + spec_apply(es.drop_first(), key, value)
    }
}

/// A replace is idempotent: applying the same replace twice leaves the
/// record exactly as one application does.
pub proof fn lemma_replace_idempotent(es: Seq<EntryView>, key: Seq<u8>, value: Seq<u8>)
    ensures
        spec_apply(spec_apply(es, key, value), key, value) == spec_apply(es, key, value),
    decreases es.len(),
{
    let once = spec_apply(es, key, value);
    if es.len() == 0 {
        assert(once[0].key == key);
        assert(seq![EntryView { key: key, value: value }] + once.drop_first() =~= once);
    } else if es[0].key == key {
        assert(once[0] == EntryView { key: key, value: value });
        assert(seq![EntryView { key: key, value: value }] + once.drop_first() =~= once);
    } else {
        lemma_replace_idempotent(es.drop_first(), key, value);
        assert(once[0] == es[0]);
        assert(once.drop_first() =~= spec_apply(es.drop_first(), key, value));
        assert(seq![once[0]] + spec_apply(once.drop_first(), key, value) =~= once);
    }
}

/// After a replace, the key reads back the new value, and every other
/// key reads exactly what it read before.
pub proof fn lemma_apply_lookup(es: Seq<EntryView>, key: Seq<u8>, value: Seq<u8>, other: Seq<u8>)
    ensures
        spec_lookup(spec_apply(es, key, value), key) == Some(value),
        other != key ==> spec_lookup(spec_apply(es, key, value), other) == spec_lookup(es, other),
    decreases es.len(),
{
    let once = spec_apply(es, key, value);
    if es.len() == 0 {
        assert(once[0].key == key);
    } else if es[0].key == key {
        assert(once[0].key == key);
        assert(once.drop_first() =~= es.drop_first());
        if other != key {
            lemma_apply_lookup(es.drop_first(), key, value, other);
            assert(spec_lookup(once, other) == spec_lookup(once.drop_first(), other));
        }
    } else {
        lemma_apply_lookup(es.drop_first(), key, value, other);
        assert(once[0] == es[0]);
        assert(once.drop_first() =~= spec_apply(es.drop_first(), key, value));
    }
}

/// A replace distributes past a prefix free of the key.
pub proof fn lemma_apply_split(es: Seq<EntryView>, key: Seq<u8>, value: Seq<u8>, i: int)
    requires
        0 <= i <= es.len(),
        forall|j: int| 0 <= j < i ==> (#[trigger] es[j]).key != key,
    ensures
        spec_apply(es, key, value) == es.take(i) + spec_apply(es.skip(i), key, value),
    decreases i,
{
    if i == 0 {
        assert(es.skip(0) =~= es);
        assert(es.take(0) + spec_apply(es.skip(0), key, value) =~= spec_apply(es, key, value));
    } else {
        assert(es[0].key != key);
        assert forall|j: int| 0 <= j < i - 1 implies (#[trigger] es.drop_first()[j]).key != key by {
            assert(es.drop_first()[j] == es[j + 1]);
        }
        lemma_apply_split(es.drop_first(), key, value, i - 1);
        assert(es.drop_first().skip(i - 1) =~= es.skip(i));
        assert(seq![es[0]] + (es.drop_first().take(i - 1) + spec_apply(es.skip(i), key, value))
            =~= es.take(i) + spec_apply(es.skip(i), key, value));
    }
}

/// Copy one entry.
fn copy_entry(e: &ConfigEntry) -> (r: ConfigEntry)
    ensures
        r@ == e@,
{
    ConfigEntry { key: copy_bytes(e.key.as_slice()), value: copy_bytes(e.value.as_slice()) }
}

/// Apply a replace to the record's data in place: set `key` to `value`,
/// whether or not the key was present.
pub fn apply_replace(data: &mut ConfigData, key: &[u8], value: &[u8])
    ensures
        entries_view(final(data).entries) == spec_apply(entries_view(old(data).entries), key@, value@),
{
    let ghost ev = entries_view(data.entries);
    let n = data.entries.len();
    let mut idx: usize = 0;
    let mut found = false;
    while idx < n && !found
        invariant
            ev == entries_view(data.entries),
            n == ev.len(),
            0 <= idx <= n,
            !found ==> forall|j: int| 0 <= j < idx ==> (#[trigger] ev[j]).key != key@,
            found ==> idx < n && ev[idx as int].key == key@
                && forall|j: int| 0 <= j < idx ==> (#[trigger] ev[j]).key != key@,
        decreases n - idx + if found { 0int } else { 1int },
    {
        if bytes_eq(data.entries[idx].key.as_slice(), key) {
            found = true;
        } else {
            idx += 1;
        }
    }
    let stop = if found { idx } else { n };
    let mut out: Vec<ConfigEntry> = Vec::new();
    let mut i: usize = 0;
    while i < stop
        invariant
            ev == entries_view(data.entries),
            n == ev.len(),
            stop <= n,
            0 <= i <= stop,
            entries_view(out) == ev.take(i as int),
        decreases stop - i,
    {
        let ghost prev = entries_view(out);
        out.push(copy_entry(&data.entries[i]));
        proof {
            assert(entries_view(out) =~= prev.push(ev[i as int]));
            assert(entries_view(out) =~= ev.take(i + 1));
        }
        i += 1;
    }
    let ghost before = entries_view(out);
    out.push(ConfigEntry { key: copy_bytes(key), value: copy_bytes(value) });
    proof {
        assert(entries_view(out) =~= before.push(EntryView { key: key@, value: value@ }));
    }
    if found {
        let mut i2: usize = idx + 1;
        while i2 < n
            invariant
                ev == entries_view(data.entries),
                n == ev.len(),
                idx + 1 <= i2 <= n,
                idx < n,
                entries_view(out) == ev.take(idx as int).push(EntryView { key: key@, value: value@ })
                    + ev.subrange(idx + 1, i2 as int),
            decreases n - i2,
        {
            let ghost prev = entries_view(out);
            out.push(copy_entry(&data.entries[i2]));
            proof {
                assert(entries_view(out) =~= prev.push(ev[i2 as int]));
                assert(entries_view(out) =~= ev.take(idx as int).push(EntryView {
                    key: key@,
                    value: value@,
                }) + ev.subrange(idx + 1, i2 + 1));
            }
            i2 += 1;
        }
        proof {
            lemma_apply_split(ev, key@, value@, idx as int);
            assert(ev.skip(idx as int)[0] == ev[idx as int]);
            assert(ev.skip(idx as int).drop_first() =~= ev.skip(idx + 1));
            assert(ev.subrange(idx + 1, n as int) =~= ev.skip(idx + 1));
            assert(entries_view(out) =~= ev.take(idx as int) + spec_apply(
                ev.skip(idx as int),
                key@,
                value@,
            ));
        }
    } else {
        proof {
            lemma_apply_split(ev, key@, value@, n as int);
            assert(ev.skip(n as int).len() == 0);
            assert(ev.take(n as int) =~= ev);
            assert(entries_view(out) =~= ev + spec_apply(ev.skip(n as int), key@, value@));
        }
    }
    data.entries = out;
}

/// Apply the terminal result patch to a record's data.
pub fn apply_result_patch(data: &mut ConfigData, p: &PatchOp)
    requires
        p.path@ == s_result_path(),
    ensures
        entries_view(final(data).entries) == spec_apply(
            entries_view(old(data).entries),
            s_result_key(),
            p.value@,
        ),
{
    let key = lit_result_key();
    apply_replace(data, key.as_slice(), p.value.as_slice());
}

} // verus!
